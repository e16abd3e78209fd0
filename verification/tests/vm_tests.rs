//! The engine run end to end on whole programs: loading, resetting,
//! comment handling, the optimizer's packed streams, and full outputs.

use brainfuck::vm::{RunStatus, VMOptions, VM};

const HELLO_SMOL: &str = "++++++++++++++++++++++++++++++++++++++++++++++++++++++++++++++++++++++++++++++++++++++++++++++++++++++++.---.+++++++..+++.-------------------------------------------------------------------------------.+++++++++++++++++++++++++++++++++++++++++++++++++++++++++++++++++++++++++++++++++++++++.--------.+++.------.--------.";

const HELLO_WORLD: &str = "++++++++++[>+++++++>++++++++++>+++>+<<<<-]>++.>+.+++++++..+++.>++.<<+++++++++++++++.>.+++.------.--------.>+.>.<<<<+++++++++++++.";

const BENCH: &str = "++++++++++++++++++++++++++>++++++++++++++++++++++++++++++++++++++++++++++++++++++++++++++++++++++++++++++++++++++++++<[>.-<-]>------------------------------------------------------.";

const LAYERED: &str = "+++[>+++[>+<-]<-]";

const COMMENT_SEMI: &str = "+++++++++++++++++++++++++++++++++.;+.";

const COMMENT_POUND: &str = "+++++++++++++++++++++++++++++++++.#+.";

const COMMENT_SEMIPOUND: &str = "+++++++++++++++++++++++++++++++++.;+.#+.";

const ENDS_ON_PLUS: &str = "++>+";

const OPTIMIZE_ME: &str = "+++++----->>>>><<<<<+-><+++++----->>>+>>--<--";

const HELL: &str = "++++++++++++++++++++++++++++++++++++++++++++++++++++++++++++++++++++++++.;+++++++++++++++++++++++++++++.+++++++..+++.-------------------------------------------------------------------------------.+++++++++++++++++++++++++++++++++++++++++++++++++++++++.++++++++++++++++++++++++.+++.------.--------.-------------------------------------------------------------------.-.++++++++++++++++++.+++..-------------------------------------------.";

const OBSCURE: &str = "++++++++++++++++++++++++++++++++++++++++++++++++++++++++++++++++++++++++.;------------------------------------------------------------------------++++++++++.";

const FIBONACCI: &str = "+++++++++++++++++++++++++++++++++++++++++++++++++.-----.------------.+++++++++++++++++.-----.------------.++++++++++++++++++.------.------------.+++++++++++++++++++.-------.------------.+++++++++++++++++++++.---------.------------.++++++++++++++++++++++++.------------.------------.+++++++++++++++++.++.-------.------------.++++++++++++++++++.-.-----.------------.+++++++++++++++++++.+.--------.------------.+++++++++++++++++++++..---------.------------.++++++++++++++++++++++++.+.-------------.------------.+++++++++++++++++.+++..--------.------------.++++++++++++++++++.+..-------.------------.+++++++++++++++++.+.-.-----.------------.+++++++++++++++++++++++++.-.------------.------------.++++++++++++++++++.-.++++++++.-------------.------------.++++++++++++++...";

const QUINE: &str = ">>>+++++++++++++++++++++++++++++++++++++++++++++++++++>>>++++++++++++++++++>>>++++++++++++++++++>>>+++++++++++++++++++++++++++++++++++++++++++++++++++>>>+++>>>+++++++++++++++++++++++++++++++++++++++++++++++++>>>++++>>>+>>>+>>>+>>>+>>>+>>>+>>>+>>>+>>>+>>>+>>>+>>>+>>>+>>>+>>>+>>>+>>>+>>>+>>>+>>>+>>>+>>>+>>>+>>>+>>>+>>>+>>>+>>>+>>>+>>>+>>>+>>>+>>>+>>>+>>>+>>>+>>>+>>>+>>>+>>>+>>>+>>>+>>>++++++++++++++++++>>>+++>>>+++++++++++++++++++++++++++++++++++++++++++++++++>>>++++++++++++++++++>>>+++++++++++++++++++++++++++++++++++++++++++++++++++>>>++++++++++++++++++++>>>+>>>+++++++++++++++++++++++++++++++++++++++++++++++++++>>>+++>>>+++++++++++++++++++++++++++++++++++++++++++++++++>>>++++>>>++++>>>++++>>>+>>>+>>>+>>>+>>>+>>>+>>>+>>>+>>>+>>>+>>>+>>>+>>>+>>>+>>>+>>>+>>>+>>>+>>>+>>>+>>>+>>>+>>>+>>>+>>>+>>>+>>>+>>>+>>>+>>>+>>>+>>>+>>>+>>>+>>>+>>>+>>>+>>>+>>>+>>>+>>>+>>>+>>>+>>>+>>>+>>>+>>>+>>>+>>>+>>>+>>>+>>>+>>>+>>>+>>>+>>>+>>>+>>>+>>>+>>>+>>>+>>>+>>>++++++++++++++++++++>>>++++++++++++++++++++>>>+++++++++++++++++++++++++++++++++++++++++++++++++++>>>++++++++++++++++++>>>++++++++++++++++++>>>+++++++++++++++++++++++++++++++++++++++++++++++++++>>>+++>>>+++++++++++++++++++++++++++++++++++++++++++++++++>>>++++>>>+>>>+>>>+>>>+>>>+>>>+>>>+>>>+>>>+>>>+>>>+>>>+>>>+>>>+>>>+>>>+>>>+>>>+>>>+>>>+>>>+>>>+>>>+>>>+>>>+>>>+>>>+>>>+>>>+>>>+>>>+>>>+>>>+>>>+>>>+>>>+>>>+>>>+>>>+>>>+>>>+>>>+>>>+>>>++++++++++++++++++++>>>+>>>++++++++++++++++++++>>>+++>>>+++++++++++++++++++++++++++++++++++++++++++++++++>>>+++++++++++++++++++++++++++++++++++++++++++++++++>>>++++++++++++++++++++>>>++++++++++++++++++++>>>++++++++++++++++++++>>>+++++++++++++++++++++++++++++++++++++++++++++++++++>>>++++++++++++++++++>>>++++++++++++++++++>>>++++++++++++++++++>>>+++++++++++++++++++++++++++++++++++++++++++++++++>>>++++++++++++++++++>>>++++++++++++++++++>>>++++++++++++++++++>>>+++++++++++++++++++++++++++++++++++++++++++++++++++>>>+++>>>+++++++++++++++++++++++++++++++++++++++++++++++++>>>++++>>>++++>>>++++>>>+>>>+>>>+>>>+>>>+>>>+>>>+>>>+>>>+>>>+>>>+>>>+>>>+>>>+>>>+>>>+>>>+>>>+>>>+>>>+>>>+>>>+>>>+>>>+>>>+>>>+>>>+>>>+>>>+>>>+>>>+>>>+>>>+>>>+>>>+>>>+>>>+>>>+>>>+>>>+>>>+>>>+>>>+>>>+>>>+>>>+>>>+>>>+>>>+>>>+>>>+>>>+>>>+>>>+>>>+>>>+>>>+>>>+>>>+>>>+>>>+>>>+>>>++++++++++++++++++++++++++++++++++++++++++++++++++++++++++++++...[-]<<<[<<<]>>>[[->+>+++++++++++++++++++++++++++++++++++++++++++.[-]<<]>>++++++++++++++++++++++++++++++++++++++++++++++++++++++++++++++...[-]+>]<[-<++++++++++++++++++++++++++++++++++++++++++.[-]<<]";

const BUDGET: u64 = u64::MAX;

#[test]
fn reset() {
    let mut vm = VM::new(VMOptions::default(HELLO_SMOL.to_string())).unwrap();
    let program_pre_reset = vm.get_program();

    assert_eq!(vm.run(BUDGET), Ok(RunStatus::Halted));

    assert_eq!("hello world", vm.output_string());

    vm.reset();
    assert_eq!(program_pre_reset, vm.get_program());
    assert_eq!("", vm.output_string());
    assert_eq!(0, vm.program_cursor());

    let mut zerod = true;
    for b in vm.tape().iter() {
        if *b != 0 {
            zerod = false;
        }
    }
    assert!(zerod);
}

#[test]
fn reset_reuse() {
    let mut vm = VM::new(VMOptions::default(HELLO_SMOL.to_string())).unwrap();
    vm.load(HELLO_SMOL.to_string()).unwrap();
    assert_eq!(vm.run(BUDGET), Ok(RunStatus::Halted));

    assert_eq!("hello world", vm.output_string());

    vm.reset();
    vm.load(BENCH.to_string()).unwrap();
    assert_eq!(vm.run(BUDGET), Ok(RunStatus::Halted));
}

#[test]
fn no_program() {
    let mut vm = VM::new(VMOptions::default("".to_string())).unwrap();
    assert_eq!(vm.run(BUDGET), Ok(RunStatus::Halted));

    assert!(vm.output().is_empty() && vm.program_cursor() == 0 && vm.data_cursor() == 0);

    let mut zerod = true;
    for b in vm.tape().iter() {
        if *b != 0 {
            zerod = false;
        }
    }
    assert!(zerod);
}

#[test]
fn layered_brackets() {
    let mut vm = VM::new(VMOptions::default(LAYERED.to_string())).unwrap();
    assert_eq!(vm.run(BUDGET), Ok(RunStatus::Halted));
}

#[test]
fn comment_semicolon_ignored() {
    let mut vm = VM::new(VMOptions::default(COMMENT_SEMI.to_string())).unwrap();
    assert_eq!(vm.run(BUDGET), Ok(RunStatus::Halted));

    assert_eq!("!", vm.output_string());
}

#[test]
fn comment_poundsign_ignored() {
    let mut vm = VM::new(VMOptions::default(COMMENT_POUND.to_string())).unwrap();
    assert_eq!(vm.run(BUDGET), Ok(RunStatus::Halted));

    assert_eq!("!", vm.output_string());
}

#[test]
fn comment_semipound_ignored() {
    let mut vm = VM::new(VMOptions::default(COMMENT_SEMIPOUND.to_string())).unwrap();
    assert_eq!(vm.run(BUDGET), Ok(RunStatus::Halted));

    assert_eq!("!", vm.output_string());
}

#[test]
fn comment_not_ignored() {
    let options = VMOptions {
        program: COMMENT_SEMIPOUND.to_string(),
        disable_comments: true,
        disable_optimizer: true,
    };
    let mut vm = VM::new(options).unwrap();
    assert_eq!(vm.run(BUDGET), Ok(RunStatus::Halted));

    assert_ne!("!", vm.output_string());
}

#[test]
fn last_char_is_plus() {
    let mut vm = VM::new(VMOptions::default(ENDS_ON_PLUS.to_string())).unwrap();
    vm.enable_optimizer(ENDS_ON_PLUS).unwrap();
    assert_eq!(vm.run(BUDGET), Ok(RunStatus::Halted));
}

#[test]
fn optimizer() {
    let options = VMOptions {
        program: OPTIMIZE_ME.to_string(),
        disable_optimizer: false,
        disable_comments: false,
    };
    let mut vm = VM::new(options).unwrap();
    assert_eq!(vm.run(BUDGET), Ok(RunStatus::Halted));
    let optimized_program = vec![
        0b11100100, 0b11000100, 0b10100100, 0b10000100, b'+', b'-', b'>', b'<', 0b11100100,
        0b11000100, 0b10100010, b'+', 0b10100001, 0b11000001, b'<', 0b11000001,
    ];
    let optimized_program: String = optimized_program.iter().map(|op: &u8| *op as char).collect();
    assert_eq!(vm.get_program(), optimized_program);
}

#[test]
fn hello_world() {
    let mut vm = VM::new(VMOptions::default(HELLO_WORLD.to_string())).unwrap();
    assert_eq!(vm.run(BUDGET), Ok(RunStatus::Halted));

    assert_eq!("Hello World!\n\r", vm.output_string());
}

#[test]
fn hello_world_smol() {
    let mut vm = VM::new(VMOptions::default(HELLO_SMOL.to_string())).unwrap();
    assert_eq!(vm.run(BUDGET), Ok(RunStatus::Halted));

    assert_eq!("hello world", vm.output_string());
}

#[test]
fn hell() {
    let options = VMOptions {
        program: HELL.to_string(),
        disable_comments: true,
        disable_optimizer: true,
    };
    let mut vm = VM::new(options).unwrap();
    assert_eq!(vm.run(BUDGET), Ok(RunStatus::Halted));

    assert_eq!("Hello World! 255\n", vm.output_string());

    vm.reset();
    vm.enable_optimizer(HELL).unwrap();
    assert_eq!(vm.run(BUDGET), Ok(RunStatus::Halted));

    assert_eq!("Hello World! 255\n", vm.output_string());
}

#[test]
fn quine() {
    let mut vm = VM::new(VMOptions::default(QUINE.to_string())).unwrap();
    assert_eq!(vm.run(BUDGET), Ok(RunStatus::Halted));

    assert_eq!(QUINE, vm.output_string());
}

#[test]
fn obscure() {
    let options = VMOptions {
        program: OBSCURE.to_string(),
        disable_comments: true,
        disable_optimizer: true,
    };
    let mut vm = VM::new(options).unwrap();
    assert_eq!(vm.run(BUDGET), Ok(RunStatus::Halted));

    assert_eq!("H\n", vm.output_string());

    vm.reset();
    vm.enable_optimizer(OBSCURE).unwrap();
    assert_eq!(vm.run(BUDGET), Ok(RunStatus::Halted));

    assert_eq!("H\n", vm.output_string());
}

#[test]
fn fibonacci() {
    let expected = "1, 1, 2, 3, 5, 8, 13, 21, 34, 55, 89, 144, 233, 121, 98, 219, ...";
    let mut vm = VM::new(VMOptions::default(FIBONACCI.to_string())).unwrap();
    assert_eq!(vm.run(BUDGET), Ok(RunStatus::Halted));

    assert_eq!(expected, vm.output_string());

    vm.reset();
    vm.enable_optimizer(FIBONACCI).unwrap();
    assert_eq!(vm.run(BUDGET), Ok(RunStatus::Halted));

    assert_eq!(expected, vm.output_string());
}

#[test]
fn benchbf() {
    let options = VMOptions {
        program: BENCH.to_string(),
        disable_comments: false,
        disable_optimizer: false,
    };
    let mut vm = VM::new(options).unwrap();
    assert_eq!(vm.run(BUDGET), Ok(RunStatus::Halted));

    assert_eq!("ZYXWVUTSRQPONMLKJIHGFEDCBA\n", vm.output_string());
}
