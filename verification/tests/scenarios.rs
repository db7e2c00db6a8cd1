//! Whole programs, from source text to the value that the written function
//! returns. The function is run by a small interpreter of the instructions
//! that the generator writes.

use std::collections::HashMap;

use exprc::compile_buffer;
use exprc::error::ParseError;

/// The value of an operand: a register or slot by name, or a number.
fn operand(registers: &HashMap<String, u32>, text: &str) -> u32 {
    if text.starts_with('%') {
        *registers.get(text).expect("register is defined before use")
    } else {
        text.parse::<u32>().expect("operand is a number")
    }
}

/// Runs the function and hands back the process exit status it would give:
/// the low eight bits of what it returns.
fn exit_code(ir: &str) -> i32 {
    let mut lines = ir.lines();
    assert_eq!(lines.next(), Some("define i32 @main() {"));
    let mut registers: HashMap<String, u32> = HashMap::new();
    let mut slots: HashMap<String, Option<u32>> = HashMap::new();
    let mut returned: Option<u32> = None;
    let mut closed = false;
    for line in lines {
        assert!(!closed, "nothing follows the closing brace");
        if line == "}" {
            closed = true;
            continue;
        }
        assert!(returned.is_none(), "nothing follows the return");
        let words: Vec<&str> = line.split_whitespace().collect();
        match words.as_slice() {
            ["ret", "i32", value] => {
                returned = Some(operand(&registers, value));
            }
            ["store", "i32", value, "i32*", slot] => {
                let value = operand(&registers, value.trim_end_matches(','));
                let cell = slots.get_mut(*slot).expect("slot is allocated before the store");
                *cell = Some(value);
            }
            [slot, "=", "alloca", "i32"] => {
                assert!(slots.insert(slot.to_string(), None).is_none(), "a slot is allocated once");
            }
            [register, "=", "load", "i32,", "i32*", slot] => {
                let value = slots
                    .get(*slot)
                    .expect("slot is allocated before the load")
                    .expect("slot is stored to before the load");
                assert!(registers.insert(register.to_string(), value).is_none());
            }
            [register, "=", op, "i32", left, right] => {
                let left = operand(&registers, left.trim_end_matches(','));
                let right = operand(&registers, right);
                let value = match *op {
                    "add" => left.wrapping_add(right),
                    "sub" => left.wrapping_sub(right),
                    "mul" => left.wrapping_mul(right),
                    "udiv" => left / right,
                    other => panic!("unknown instruction {}", other),
                };
                assert!(registers.insert(register.to_string(), value).is_none());
            }
            other => panic!("unknown line {:?}", other),
        }
    }
    assert!(closed);
    (returned.expect("the function returns") & 0xff) as i32
}

fn run(source: &str) -> i32 {
    exit_code(&compile_buffer(source).expect("the program compiles"))
}

#[test]
fn test_line_with_status_code() {
    let test_sets = vec![
        ("return 0", 0),
        ("return 1 + 1", 2),
        ("return  12 + 34 - 5 ", 12 + 34 - 5),
        ("return 1 * 2 + 3", 1 * 2 + 3),
        ("return 1 + 2*3", 1 + 2 * 3),
        ("return 1*2 + 3*4", 1 * 2 + 3 * 4),
        ("return 1*2 + 3*4/5", 1 * 2 + 3 * 4 / 5),
        ("1*2 ; return 3*4/5", 3 * 4 / 5),
        ("a = 1; b = 2; return a*b", 1 * 2),
        ("a = 1 + 2*3; b = 4; return a*b*b", (1 + 2 * 3) * 4 * 4),
        ("a = 1 + 2*3; b = 2*a; return a*b", (1 + 2 * 3) * 14),
        ("return ((1 + 2) * 3 + 4) * 5", ((1 + 2) * 3 + 4) * 5),
        ("a = (1 + 2) * 3; b = a; return a*b", ((1 + 2) * 3) * 9),
    ];
    for (input, result) in test_sets {
        let ir = compile_buffer(input).expect("the program compiles");
        assert_eq!(exit_code(&ir), result, "{}\n{}", input, ir);
    }
}

#[test]
fn assignment_followed_by_use() {
    assert_eq!(run("a = 1 + 2*3; b = 4; return a*b*b"), 112);
}

#[test]
fn nested_grouping() {
    assert_eq!(run("return ((1 + 2) * 3 + 4) * 5"), 65);
}

#[test]
fn last_statement_surfaces_without_return() {
    assert_eq!(run("1*2 ; 3*4/5"), 2);
    assert_eq!(
        compile_buffer("1*2 ; 3*4/5"),
        Ok(String::from(
            "define i32 @main() {\n %1 = mul i32 1, 2\n %2 = mul i32 3, 4\n %3 = udiv i32 %2, 5\n ret i32 %3\n}"
        ))
    );
}

#[test]
fn explicit_return_is_not_followed_by_another() {
    assert_eq!(
        compile_buffer("1*2 ; return 3*4/5"),
        Ok(String::from(
            "define i32 @main() {\n %1 = mul i32 1, 2\n %2 = mul i32 3, 4\n %3 = udiv i32 %2, 5\n ret i32 %3\n}"
        ))
    );
}

#[test]
fn return_zero_and_return_sum() {
    assert_eq!(run("return 0"), 0);
    assert_eq!(run("return 1 + 1"), 2);
    assert_eq!(compile_buffer("return 0"), Ok(String::from("define i32 @main() {\n ret i32 0\n}")));
    assert_eq!(
        compile_buffer("return 1 + 1"),
        Ok(String::from("define i32 @main() {\n %1 = add i32 1, 1\n ret i32 %1\n}"))
    );
}

#[test]
fn number_sequence_aborts_before_any_output() {
    assert_eq!(compile_buffer("1 1"), Err(ParseError::UnexpectedOperand));
    assert_eq!(compile_buffer("return 1 + 2; 1 1"), Err(ParseError::UnexpectedOperand));
}

#[test]
fn arithmetic_follows_standard_precedence() {
    assert_eq!(run("return 2 + 3 * 4"), 2 + 3 * 4);
    assert_eq!(run("return 2 * 3 + 4"), 2 * 3 + 4);
    assert_eq!(run("return 100 - 8 * 9 / 4 + 1"), 100 - 8 * 9 / 4 + 1);
    assert_eq!(run("return 7 / 2 * 2"), 7 / 2 * 2);
    assert_eq!(run("return (2 + 3) * (4 + 5)"), (2 + 3) * (4 + 5));
    assert_eq!(run("return 60 / (2 + 3) / 2"), 60 / (2 + 3) / 2);
}

#[test]
fn redundant_parentheses_change_nothing() {
    let plain = compile_buffer("return 1 + 2 * 3 - 4").unwrap();
    assert_eq!(compile_buffer("return 1 + (2 * 3) - 4").unwrap(), plain);
    assert_eq!(compile_buffer("return (1 + 2 * 3) - 4").unwrap(), plain);
    assert_eq!(compile_buffer("return ((1) + ((2) * (3))) - (4)").unwrap(), plain);
    assert_eq!(compile_buffer("(return (1 + 2 * 3 - 4))").unwrap(), plain);
    assert_eq!(exit_code(&plain), 3);
}

#[test]
fn equal_precedence_associates_to_the_left() {
    assert_eq!(run("return 10 - 4 - 3"), (10 - 4) - 3);
    assert_eq!(run("return 100 / 10 / 5"), (100 / 10) / 5);
    assert_eq!(run("return 100 / 10 * 5"), (100 / 10) * 5);
    assert_eq!(run("return 10 - 4 + 3"), (10 - 4) + 3);
    assert_eq!(
        compile_buffer("return 10 - 4 - 3"),
        Ok(String::from(
            "define i32 @main() {\n %1 = sub i32 10, 4\n %2 = sub i32 %1, 3\n ret i32 %2\n}"
        ))
    );
}

#[test]
fn white_space_around_the_program_is_ignored() {
    assert_eq!(compile_buffer("  \n\treturn 1 + 1 \r\n"), compile_buffer("return 1 + 1"));
    assert_eq!(compile_buffer("return 1+1"), compile_buffer("return 1 + 1"));
}

#[test]
fn each_refusal_has_its_own_kind() {
    assert_eq!(compile_buffer("1 ? 2"), Err(ParseError::UnknownOperator));
    assert_eq!(compile_buffer("1 +- 2"), Err(ParseError::UnknownOperator));
    assert_eq!(compile_buffer("a b"), Err(ParseError::UnexpectedOperand));
    assert_eq!(compile_buffer("1 (2)"), Err(ParseError::UnexpectedOperand));
    assert_eq!(compile_buffer("* 2"), Err(ParseError::EmptyLeadingOperator));
    assert_eq!(compile_buffer("1; + 2"), Err(ParseError::EmptyLeadingOperator));
    assert_eq!(compile_buffer("1 + * 2"), Err(ParseError::EmptyLeadingOperator));
    assert_eq!(compile_buffer("if 1"), Err(ParseError::UnsupportedConstruct));
    assert_eq!(compile_buffer("1 )"), Err(ParseError::StructuralInvariantViolation));
    assert_eq!(compile_buffer("( 1"), Err(ParseError::StructuralInvariantViolation));
    assert_eq!(compile_buffer("(1; 2)"), Err(ParseError::StructuralInvariantViolation));
    assert_eq!(compile_buffer("1 +"), Err(ParseError::StructuralInvariantViolation));
    assert_eq!(compile_buffer("1 + ; 2"), Err(ParseError::StructuralInvariantViolation));
    assert_eq!(compile_buffer(""), Err(ParseError::StructuralInvariantViolation));
    assert_eq!(compile_buffer("return 1;"), Err(ParseError::StructuralInvariantViolation));
    assert_eq!(compile_buffer("()"), Err(ParseError::StructuralInvariantViolation));
}

#[test]
fn the_first_refused_token_decides() {
    assert_eq!(compile_buffer("1 1 if"), Err(ParseError::UnexpectedOperand));
    assert_eq!(compile_buffer("if 1 1"), Err(ParseError::UnsupportedConstruct));
    assert_eq!(compile_buffer(") * ?"), Err(ParseError::StructuralInvariantViolation));
}

#[test]
fn assignment_sign_after_anything_but_a_lone_variable_is_dropped() {
    assert_eq!(compile_buffer("1 = "), compile_buffer("1"));
    assert_eq!(compile_buffer("return a + b ="), compile_buffer("return a + b"));
    assert_eq!(compile_buffer("a = b = 1"), Err(ParseError::UnexpectedOperand));
}

#[test]
fn a_long_program_compiles_and_runs() {
    let mut source = String::from("total = 0");
    for i in 1..=300 {
        source.push_str(&format!("; v{} = {} * (total + {}) - {} / 3", letters(i), i, i, i));
    }
    source.push_str("; return 1");
    for _ in 0..1000 {
        source.push_str(" + 1");
    }
    let ir = compile_buffer(&source).expect("the program compiles");
    assert_eq!(exit_code(&ir), 1001 & 0xff);
}

/// Writes a number in letters, for use in a name.
fn letters(mut n: u32) -> String {
    let mut s = String::new();
    loop {
        s.push((b'a' + (n % 26) as u8) as char);
        n /= 26;
        if n == 0 {
            return s;
        }
    }
}
