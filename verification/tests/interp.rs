use assembunny_plus::bytecode::{from_bytecode, to_bytecode};
use assembunny_plus::interpret::{
    execute, execute_one, new_state, RegisterMap, RuntimeError,
};
use assembunny_plus::loader::{compile_source, run, run_bytecode, step, RunOutcome, StepOutcome};
use assembunny_plus::parser::{to_tokens, Token, TokenType};

/// Compiles and runs a program with a generous step allowance; returns the
/// final state and the outcome.
fn run_source(lines: &[&str]) -> (assembunny_plus::interpret::AsmbiState, RunOutcome) {
    let lines: Vec<&str> = lines.to_vec();
    let (regs, prog) = compile_source(&lines).expect("program should compile");
    run(&prog, regs.len(), 1_000_000)
}

fn output_of(state: &assembunny_plus::interpret::AsmbiState) -> String {
    state.output.iter().collect()
}

#[test]
fn inct_and_inc_then_outn() {
    let (state, outcome) = run_source(&["def a 0", "def b 0", "inct b a", "inc a", "outn a"]);
    assert_eq!(outcome, RunOutcome::Halted(5));
    assert_eq!(state.regs.vec[0], 1);
    assert_eq!(output_of(&state), "1\n");
}

#[test]
fn mul_by_a_negative_literal() {
    let (state, outcome) = run_source(&["def a 5", "mul a -2", "outn a"]);
    assert_eq!(outcome, RunOutcome::Halted(3));
    assert_eq!(output_of(&state), "-10\n");
}

#[test]
fn div_truncates_toward_zero() {
    // The division policy: quotients truncate toward zero, for every sign
    // combination of dividend and divisor.
    let (state, _) = run_source(&["def a 52", "div a 5", "outn a"]);
    assert_eq!(output_of(&state), "10\n");
    let (state, _) = run_source(&["def a -52", "div a 5", "outn a"]);
    assert_eq!(output_of(&state), "-10\n");
    let (state, _) = run_source(&["def a 52", "div a -5", "outn a"]);
    assert_eq!(output_of(&state), "-10\n");
    let (state, _) = run_source(&["def a -52", "div a -5", "outn a"]);
    assert_eq!(output_of(&state), "10\n");
}

#[test]
fn div_faults_on_zero_and_on_the_overflowing_quotient() {
    let lines = vec!["def a 52", "div a 0"];
    let (regs, prog) = compile_source(&lines).unwrap();
    let (_, outcome) = run(&prog, regs.len(), 100);
    assert_eq!(outcome, RunOutcome::Failed(1, RuntimeError::DivisionError));

    let lines = vec!["def a -2147483648", "div a -1"];
    let (regs, prog) = compile_source(&lines).unwrap();
    let (_, outcome) = run(&prog, regs.len(), 100);
    assert_eq!(outcome, RunOutcome::Failed(1, RuntimeError::DivisionError));
}

#[test]
fn jnz_counts_a_register_down() {
    let (state, outcome) = run_source(&["def ctr 3", "dec ctr", "outn ctr", "jnz ctr -2"]);
    assert_eq!(output_of(&state), "2\n1\n0\n");
    // Three loop passes of three instructions each, plus the `def`, minus
    // the two skipped instructions of the final fall-through.
    assert_eq!(outcome, RunOutcome::Halted(10));
}

#[test]
fn jnz_is_not_taken_on_zero() {
    let (state, outcome) = run_source(&["def a 0", "jnz a 100", "outn a"]);
    assert_eq!(outcome, RunOutcome::Halted(3));
    assert_eq!(output_of(&state), "0\n");
}

#[test]
fn jnz_below_zero_is_a_pointer_underflow() {
    let lines = vec!["def a 1", "jnz a -5"];
    let (regs, prog) = compile_source(&lines).unwrap();
    let (_, outcome) = run(&prog, regs.len(), 100);
    assert_eq!(outcome, RunOutcome::Failed(1, RuntimeError::PointerUnderflow));
}

#[test]
fn an_endless_loop_runs_out_of_fuel() {
    let lines = vec!["def a 1", "jnz a 0"];
    let (regs, prog) = compile_source(&lines).unwrap();
    let (_, outcome) = run(&prog, regs.len(), 1000);
    assert_eq!(outcome, RunOutcome::OutOfFuel);
}

#[test]
fn out_writes_a_trailing_space_and_outc_a_bare_character() {
    let (state, _) = run_source(&["def rm 42", "def rn 43", "cpy -41 rn", "inc rn", "out rn", "out 40"]);
    assert_eq!(output_of(&state), "-40 40 ");

    let (state, _) = run_source(&["def tm 43", "outc tm"]);
    assert_eq!(output_of(&state), "+");
}

#[test]
fn outc_rejects_values_no_char_can_hold() {
    let lines = vec!["def a -1", "outc a"];
    let (regs, prog) = compile_source(&lines).unwrap();
    let (_, outcome) = run(&prog, regs.len(), 100);
    assert_eq!(outcome, RunOutcome::Failed(1, RuntimeError::InvalidCodepoint));

    // A surrogate codepoint.
    let lines = vec!["def a 55296", "outc a"];
    let (regs, prog) = compile_source(&lines).unwrap();
    let (_, outcome) = run(&prog, regs.len(), 100);
    assert_eq!(outcome, RunOutcome::Failed(1, RuntimeError::InvalidCodepoint));
}

#[test]
fn arithmetic_wraps_on_overflow() {
    let (state, outcome) = run_source(&["def a 2147483647", "inc a", "outn a"]);
    assert_eq!(outcome, RunOutcome::Halted(3));
    assert_eq!(output_of(&state), "-2147483648\n");

    let (state, _) = run_source(&["def a -2147483648", "dec a", "outn a"]);
    assert_eq!(output_of(&state), "2147483647\n");

    let (state, _) = run_source(&["def a 65536", "mul a 65536", "outn a"]);
    assert_eq!(output_of(&state), "0\n");
}

#[test]
fn dect_and_cpy_move_values_between_registers() {
    let (state, _) = run_source(&["def a 10", "def b 4", "dect a b", "cpy a b", "outn b"]);
    assert_eq!(output_of(&state), "6\n");
}

#[test]
fn registers_beyond_the_claimed_count_fault_at_run_time() {
    // An image whose header claims one register but whose body names
    // register five decodes fine; the fault comes when the instruction
    // runs.
    let mut bytes = vec![0, 0, 0, 1];
    bytes.extend_from_slice(&[0u8; 28]);
    bytes.extend([0, 0, 0, 0, 1]); // inc
    bytes.extend([1, 0, 0, 0, 5]); // register 5
    let (reg_count, prog) = from_bytecode(&bytes).expect("decoding must not check indices");
    assert_eq!(reg_count, 1);
    let (_, outcome) = run(&prog, reg_count, 100);
    assert_eq!(outcome, RunOutcome::Failed(0, RuntimeError::RegisterOutOfRange));
}

#[test]
fn run_bytecode_runs_what_to_bytecode_wrote() {
    let bytes = to_bytecode(&vec!["def a 5", "mul a -2", "outn a"]).unwrap();
    let (state, outcome) = run_bytecode(&bytes, 1000).unwrap();
    assert_eq!(outcome, RunOutcome::Halted(3));
    assert_eq!(output_of(&state), "-10\n");
}

#[test]
fn step_walks_one_instruction_at_a_time() {
    let lines = vec!["def a 5", "inc a"];
    let (regs, prog) = compile_source(&lines).unwrap();
    let mut state = new_state(regs.len());
    assert_eq!(step(&mut state, &prog), StepOutcome::Continue);
    assert_eq!(state.regs.vec[0], 5);
    assert_eq!(state.ip, 1);
    assert_eq!(step(&mut state, &prog), StepOutcome::Continue);
    assert_eq!(state.regs.vec[0], 6);
    assert_eq!(step(&mut state, &prog), StepOutcome::Halted);
    assert_eq!(state.ip, 2);
}

#[test]
fn execute_rejects_malformed_instructions() {
    let mut state = new_state(1);
    let empty: Vec<Token> = Vec::new();
    assert_eq!(execute(&mut state, &empty), Err(RuntimeError::MalformedInstruction));
    // Not led by a keyword.
    let toks = vec![Token { type_: TokenType::LITERAL, val: 0 }];
    assert_eq!(execute(&mut state, &toks), Err(RuntimeError::MalformedInstruction));
    // No such opcode.
    let toks = vec![Token { type_: TokenType::KEYWORD, val: 50 }];
    assert_eq!(execute(&mut state, &toks), Err(RuntimeError::MalformedInstruction));
    // Wrong parameter count for `inc`.
    let toks = vec![
        Token { type_: TokenType::KEYWORD, val: 1 },
        Token { type_: TokenType::REGISTER, val: 0 },
        Token { type_: TokenType::REGISTER, val: 0 },
    ];
    assert_eq!(execute(&mut state, &toks), Err(RuntimeError::MalformedInstruction));
}

#[test]
fn execute_one_grows_the_store_for_each_def() {
    // The interactive path starts with no registers at all.
    let mut state = new_state(0);
    let mut regs: Vec<String> = Vec::new();
    let toks = to_tokens("def a 7", &mut regs).unwrap().unwrap();
    assert_eq!(execute_one(&mut state, &toks), Ok(()));
    assert_eq!(state.regs.vec, vec![7]);
    let toks = to_tokens("def b 2", &mut regs).unwrap().unwrap();
    assert_eq!(execute_one(&mut state, &toks), Ok(()));
    assert_eq!(state.regs.vec, vec![7, 2]);
    let toks = to_tokens("inct a b", &mut regs).unwrap().unwrap();
    assert_eq!(execute_one(&mut state, &toks), Ok(()));
    assert_eq!(state.regs.vec, vec![9, 2]);
}

#[test]
fn register_map_operations() {
    let mut map = RegisterMap::new(2);
    assert_eq!(map.vec, vec![0, 0]);
    assert!(map.index_set(1, 9));
    assert!(!map.index_set(2, 9));
    assert_eq!(map.get(1), Some(9));
    assert_eq!(map.get(2), None);
    assert!(map.index_modify(1, |v| v + 1));
    assert_eq!(map.get(1), Some(10));
    assert!(!map.index_modify(5, |v| v));

    let reg0 = Token { type_: TokenType::REGISTER, val: 0 };
    assert!(map.set(&reg0, 3));
    assert!(map.modify(&reg0, |v| v * 2));
    assert_eq!(map.parse_token(&reg0), Ok(6));
    let lit = Token { type_: TokenType::LITERAL, val: -7 };
    assert_eq!(map.parse_token(&lit), Ok(-7));
    let far = Token { type_: TokenType::REGISTER, val: 2 };
    assert_eq!(map.parse_token(&far), Err(RuntimeError::RegisterOutOfRange));
    assert!(!map.set(&far, 1));
    let kw = Token { type_: TokenType::KEYWORD, val: 0 };
    assert_eq!(map.parse_token(&kw), Err(RuntimeError::MalformedInstruction));
}
