//! The engine's stated behaviors exercised on concrete programs: cell
//! wraparound, bracket validation failures, the packed run encoding, the
//! optimizer's transparency, pointer bounds, input handling, and the step
//! budget.

use brainfuck::vm::{RunStatus, StepEvent, VMOptions, VmError, VM};
use newline_converter::dos2unix;

const HELLO_WORLD: &str = "++++++++++[>+++++++>++++++++++>+++>+<<<<-]>++.>+.+++++++..+++.>++.<<+++++++++++++++.>.+++.------.--------.>+.>.<<<<+++++++++++++.";

const QUINE: &str = ">>>+++++++++++++++++++++++++++++++++++++++++++++++++++>>>++++++++++++++++++>>>++++++++++++++++++>>>+++++++++++++++++++++++++++++++++++++++++++++++++++>>>+++>>>+++++++++++++++++++++++++++++++++++++++++++++++++>>>++++>>>+>>>+>>>+>>>+>>>+>>>+>>>+>>>+>>>+>>>+>>>+>>>+>>>+>>>+>>>+>>>+>>>+>>>+>>>+>>>+>>>+>>>+>>>+>>>+>>>+>>>+>>>+>>>+>>>+>>>+>>>+>>>+>>>+>>>+>>>+>>>+>>>+>>>+>>>+>>>+>>>+>>>+>>>++++++++++++++++++>>>+++>>>+++++++++++++++++++++++++++++++++++++++++++++++++>>>++++++++++++++++++>>>+++++++++++++++++++++++++++++++++++++++++++++++++++>>>++++++++++++++++++++>>>+>>>+++++++++++++++++++++++++++++++++++++++++++++++++++>>>+++>>>+++++++++++++++++++++++++++++++++++++++++++++++++>>>++++>>>++++>>>++++>>>+>>>+>>>+>>>+>>>+>>>+>>>+>>>+>>>+>>>+>>>+>>>+>>>+>>>+>>>+>>>+>>>+>>>+>>>+>>>+>>>+>>>+>>>+>>>+>>>+>>>+>>>+>>>+>>>+>>>+>>>+>>>+>>>+>>>+>>>+>>>+>>>+>>>+>>>+>>>+>>>+>>>+>>>+>>>+>>>+>>>+>>>+>>>+>>>+>>>+>>>+>>>+>>>+>>>+>>>+>>>+>>>+>>>+>>>+>>>+>>>+>>>+>>>++++++++++++++++++++>>>++++++++++++++++++++>>>+++++++++++++++++++++++++++++++++++++++++++++++++++>>>++++++++++++++++++>>>++++++++++++++++++>>>+++++++++++++++++++++++++++++++++++++++++++++++++++>>>+++>>>+++++++++++++++++++++++++++++++++++++++++++++++++>>>++++>>>+>>>+>>>+>>>+>>>+>>>+>>>+>>>+>>>+>>>+>>>+>>>+>>>+>>>+>>>+>>>+>>>+>>>+>>>+>>>+>>>+>>>+>>>+>>>+>>>+>>>+>>>+>>>+>>>+>>>+>>>+>>>+>>>+>>>+>>>+>>>+>>>+>>>+>>>+>>>+>>>+>>>+>>>+>>>++++++++++++++++++++>>>+>>>++++++++++++++++++++>>>+++>>>+++++++++++++++++++++++++++++++++++++++++++++++++>>>+++++++++++++++++++++++++++++++++++++++++++++++++>>>++++++++++++++++++++>>>++++++++++++++++++++>>>++++++++++++++++++++>>>+++++++++++++++++++++++++++++++++++++++++++++++++++>>>++++++++++++++++++>>>++++++++++++++++++>>>++++++++++++++++++>>>+++++++++++++++++++++++++++++++++++++++++++++++++>>>++++++++++++++++++>>>++++++++++++++++++>>>++++++++++++++++++>>>+++++++++++++++++++++++++++++++++++++++++++++++++++>>>+++>>>+++++++++++++++++++++++++++++++++++++++++++++++++>>>++++>>>++++>>>++++>>>+>>>+>>>+>>>+>>>+>>>+>>>+>>>+>>>+>>>+>>>+>>>+>>>+>>>+>>>+>>>+>>>+>>>+>>>+>>>+>>>+>>>+>>>+>>>+>>>+>>>+>>>+>>>+>>>+>>>+>>>+>>>+>>>+>>>+>>>+>>>+>>>+>>>+>>>+>>>+>>>+>>>+>>>+>>>+>>>+>>>+>>>+>>>+>>>+>>>+>>>+>>>+>>>+>>>+>>>+>>>+>>>+>>>+>>>+>>>+>>>+>>>+>>>++++++++++++++++++++++++++++++++++++++++++++++++++++++++++++++...[-]<<<[<<<]>>>[[->+>+++++++++++++++++++++++++++++++++++++++++++.[-]<<]>>++++++++++++++++++++++++++++++++++++++++++++++++++++++++++++++...[-]+>]<[-<++++++++++++++++++++++++++++++++++++++++++.[-]<<]";

const BUDGET: u64 = u64::MAX;

fn optimized(program: &str) -> VM {
    VM::new(VMOptions {
        program: program.to_string(),
        disable_optimizer: false,
        disable_comments: false,
    })
    .unwrap()
}

#[test]
fn unmatched_open_fails_to_load() {
    assert_eq!(
        VM::new(VMOptions::default("[".to_string())).err(),
        Some(VmError::MismatchedBrackets)
    );
    assert_eq!(
        VM::new(VMOptions::default("+[>+<".to_string())).err(),
        Some(VmError::MismatchedBrackets)
    );
}

#[test]
fn unmatched_close_fails_to_load() {
    assert_eq!(
        VM::new(VMOptions::default("]".to_string())).err(),
        Some(VmError::MismatchedBrackets)
    );
    assert_eq!(
        VM::new(VMOptions::default("+]".to_string())).err(),
        Some(VmError::MismatchedBrackets)
    );
    assert!(VM::new(VMOptions::default("[]".to_string())).is_ok());
}

#[test]
fn failed_load_leaves_empty_stream() {
    let mut vm = VM::new(VMOptions::default("+".to_string())).unwrap();
    assert_eq!(vm.load("[".to_string()).err(), Some(VmError::MismatchedBrackets));
    assert_eq!("", vm.get_program());
    assert_eq!(vm.run(BUDGET), Ok(RunStatus::Halted));
    assert!(vm.output().is_empty());
}

#[test]
fn increment_wraps_around() {
    let program = "+".repeat(256) + ".";
    let mut vm = VM::new(VMOptions::default(program)).unwrap();
    assert_eq!(vm.run(BUDGET), Ok(RunStatus::Halted));
    assert_eq!(vm.output(), &vec![0u8]);

    let program = "+".repeat(65) + "." + &"+".repeat(256) + ".";
    let mut vm = optimized(&program);
    assert_eq!(vm.run(BUDGET), Ok(RunStatus::Halted));
    assert_eq!(vm.output(), &vec![65u8, 65u8]);
}

#[test]
fn decrement_wraps_around() {
    let mut vm = VM::new(VMOptions::default("-.".to_string())).unwrap();
    assert_eq!(vm.run(BUDGET), Ok(RunStatus::Halted));
    assert_eq!(vm.output(), &vec![255u8]);
}

#[test]
fn forty_plus_packs_to_two_synthetics() {
    let mut vm = optimized(&"+".repeat(40));
    let packed: String = vec![0b11111111u8, 0b11100111u8].iter().map(|op: &u8| *op as char).collect();
    assert_eq!(vm.get_program(), packed);
    assert_eq!(vm.run(BUDGET), Ok(RunStatus::Halted));

    let program = "+".repeat(40) + ".";
    let mut packed_vm = optimized(&program);
    assert_eq!(packed_vm.run(BUDGET), Ok(RunStatus::Halted));
    let mut raw_vm = VM::new(VMOptions::default(program)).unwrap();
    assert_eq!(raw_vm.run(BUDGET), Ok(RunStatus::Halted));
    assert_eq!(packed_vm.output(), &vec![40u8]);
    assert_eq!(packed_vm.output(), raw_vm.output());
}

#[test]
fn optimizer_is_observationally_invisible() {
    let mut packed_vm = optimized(HELLO_WORLD);
    assert_eq!(packed_vm.run(BUDGET), Ok(RunStatus::Halted));
    let mut raw_vm = VM::new(VMOptions::default(HELLO_WORLD.to_string())).unwrap();
    assert_eq!(raw_vm.run(BUDGET), Ok(RunStatus::Halted));
    assert_eq!(packed_vm.output(), raw_vm.output());
    assert_eq!(packed_vm.data_cursor(), raw_vm.data_cursor());
    assert_eq!(packed_vm.tape(), raw_vm.tape());
}

#[test]
fn quine_reproduces_itself_packed() {
    let mut vm = optimized(QUINE);
    assert_eq!(vm.run(BUDGET), Ok(RunStatus::Halted));
    assert_eq!(QUINE, vm.output_string());
}

#[test]
fn pointer_underflow_is_fatal() {
    let mut vm = VM::new(VMOptions::default("<".to_string())).unwrap();
    assert_eq!(vm.run(BUDGET), Err(VmError::PointerUnderflow));

    let mut vm = optimized(">><<<");
    assert_eq!(vm.run(BUDGET), Err(VmError::PointerUnderflow));
}

#[test]
fn pointer_overflow_is_fatal() {
    let program = ">".repeat(1024);
    let mut vm = VM::new(VMOptions::default(program.clone())).unwrap();
    assert_eq!(vm.run(BUDGET), Err(VmError::PointerOverflow));

    let mut vm = optimized(&program);
    assert_eq!(vm.run(BUDGET), Err(VmError::PointerOverflow));

    let mut vm = VM::new(VMOptions::default(">".repeat(1023))).unwrap();
    assert_eq!(vm.run(BUDGET), Ok(RunStatus::Halted));
    assert_eq!(vm.data_cursor(), 1023);
}

#[test]
fn read_stores_queued_byte() {
    let mut vm = VM::new(VMOptions::default(",.".to_string())).unwrap();
    vm.push_input(b'A');
    assert_eq!(vm.run(BUDGET), Ok(RunStatus::Halted));
    assert_eq!("A", vm.output_string());
}

#[test]
fn read_without_input_is_fatal() {
    let mut vm = VM::new(VMOptions::default(",".to_string())).unwrap();
    assert_eq!(vm.run(BUDGET), Err(VmError::InputExhausted));
}

#[test]
fn step_reports_each_event() {
    let mut vm = VM::new(VMOptions::default("+.".to_string())).unwrap();
    assert_eq!(vm.step(), Ok(StepEvent::Stepped));
    assert_eq!(vm.step(), Ok(StepEvent::Wrote(1)));
    assert_eq!(vm.step(), Ok(StepEvent::Halted));

    let mut vm = VM::new(VMOptions::default(",".to_string())).unwrap();
    assert_eq!(vm.step(), Ok(StepEvent::NeedsInput));
    vm.push_input(7);
    assert_eq!(vm.step(), Ok(StepEvent::Stepped));
    assert_eq!(vm.step(), Ok(StepEvent::Halted));
    assert_eq!(vm.tape()[0], 7);
}

#[test]
fn budget_reports_still_running() {
    let mut vm = VM::new(VMOptions::default("+[]".to_string())).unwrap();
    assert_eq!(vm.run(1000), Ok(RunStatus::StillRunning));
}

#[test]
fn comment_lines_with_carriage_returns() {
    let program = "+++.;zap\r\n+.";
    let unix = dos2unix(program).to_string();
    let mut vm = VM::new(VMOptions::default(program.to_string())).unwrap();
    assert_eq!(vm.run(BUDGET), Ok(RunStatus::Halted));
    let mut unix_vm = VM::new(VMOptions::default(unix)).unwrap();
    assert_eq!(unix_vm.run(BUDGET), Ok(RunStatus::Halted));
    assert_eq!(vm.output(), unix_vm.output());
    assert_eq!(vm.output(), &vec![3u8, 4u8]);
}
