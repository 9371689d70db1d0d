use tinyvm::code::{
    CodePoint, ExecError, MemLocation, ParseError, Registry, Routines, UnitMemLocation, ValMemLoc,
};
use tinyvm::interpreter::{Interpreter, Memory, RunStatus};
use tinyvm::parser::{is_comment_source, is_routine_source, parse_codeblock, parse_line, tokenize, trim_line};

const FUEL: u64 = 100_000;

fn parse_program(src: &str) -> Routines {
    let lines: Vec<String> = src.lines().map(|s| s.to_string()).collect();
    let mut routines = Routines::new();
    routines.parse(&lines).expect("program should parse");
    routines
}

fn run_program(src: &str) -> Interpreter {
    let routines = parse_program(src);
    let mut interp = Interpreter::new();
    let status = interp.execute(&routines, FUEL).expect("program should run");
    assert_eq!(status, RunStatus::Completed);
    interp
}

fn output_of(interp: &Interpreter) -> String {
    interp.output.iter().collect()
}

fn mem_loc(i: usize) -> MemLocation {
    MemLocation { ptr_count: 0, unit_mem: UnitMemLocation::Mem(i) }
}

// --- unit-address and literal tokens ---

#[test]
fn parses_register_tokens() {
    assert_eq!(UnitMemLocation::parse("I1"), Ok(UnitMemLocation::Registry(Registry::I1)));
    assert_eq!(UnitMemLocation::parse("I2"), Ok(UnitMemLocation::Registry(Registry::I2)));
    assert_eq!(UnitMemLocation::parse("O"), Ok(UnitMemLocation::Registry(Registry::O)));
}

#[test]
fn parses_memory_tokens() {
    assert_eq!(UnitMemLocation::parse("M0"), Ok(UnitMemLocation::Mem(0)));
    assert_eq!(UnitMemLocation::parse("M007"), Ok(UnitMemLocation::Mem(7)));
    assert_eq!(UnitMemLocation::parse("M123"), Ok(UnitMemLocation::Mem(123)));
}

#[test]
fn rejects_bad_unit_tokens() {
    assert_eq!(UnitMemLocation::parse(""), Err(ParseError::InvalidAddress));
    assert_eq!(UnitMemLocation::parse("M"), Err(ParseError::InvalidAddress));
    assert_eq!(UnitMemLocation::parse("MX"), Err(ParseError::InvalidAddress));
    assert_eq!(UnitMemLocation::parse("I3"), Err(ParseError::InvalidAddress));
    assert_eq!(UnitMemLocation::parse("X"), Err(ParseError::InvalidAddress));
    assert_eq!(UnitMemLocation::parse("M12x"), Err(ParseError::InvalidAddress));
    // An index too large for the machine is rejected, not wrapped.
    assert_eq!(
        UnitMemLocation::parse("M99999999999999999999999999"),
        Err(ParseError::InvalidAddress)
    );
}

#[test]
fn parses_indirection_stars() {
    assert_eq!(
        MemLocation::parse("*M1"),
        Ok(MemLocation { ptr_count: 1, unit_mem: UnitMemLocation::Mem(1) })
    );
    assert_eq!(
        MemLocation::parse("**I1"),
        Ok(MemLocation { ptr_count: 2, unit_mem: UnitMemLocation::Registry(Registry::I1) })
    );
    assert_eq!(
        MemLocation::parse("O"),
        Ok(MemLocation { ptr_count: 0, unit_mem: UnitMemLocation::Registry(Registry::O) })
    );
    assert_eq!(MemLocation::parse("*"), Err(ParseError::InvalidAddress));
}

#[test]
fn parses_value_or_location() {
    assert_eq!(ValMemLoc::parse("42"), Ok(ValMemLoc::Value(42)));
    assert_eq!(ValMemLoc::parse("M3"), Ok(ValMemLoc::MemLoc(mem_loc(3))));
    assert_eq!(ValMemLoc::parse("256"), Err(ParseError::InvalidLiteral));
    assert_eq!(ValMemLoc::parse("4x"), Err(ParseError::InvalidLiteral));
}

#[test]
fn unit_token_round_trip() {
    for token in ["I1", "I2", "O", "M0", "M12", "M4096"] {
        let parsed = UnitMemLocation::parse(token).expect("valid token");
        assert_eq!(parsed.render(), token);
        assert_eq!(UnitMemLocation::parse(&parsed.render()), Ok(parsed));
    }
    // A non-canonical token still renders to the same storage cell.
    let parsed = UnitMemLocation::parse("M007").expect("valid token");
    assert_eq!(parsed.render(), "M7");
    assert_eq!(UnitMemLocation::parse("M7"), Ok(parsed));
}

// --- instruction lines ---

#[test]
fn parses_instruction_lines() {
    assert_eq!(
        parse_line("SET M0 5"),
        Ok(CodePoint::SetLit { dest: mem_loc(0), value: 5 })
    );
    assert_eq!(
        parse_line("CPY M1 I1"),
        Ok(CodePoint::Cpy {
            dest: mem_loc(1),
            source: MemLocation { ptr_count: 0, unit_mem: UnitMemLocation::Registry(Registry::I1) },
        })
    );
    assert_eq!(parse_line("ADD"), Ok(CodePoint::Add));
    assert_eq!(parse_line("RADD Helper"), Ok(CodePoint::RAdd { name: "Helper".to_string() }));
    assert_eq!(parse_line("PRINT O"), Ok(CodePoint::Print {
        source: ValMemLoc::MemLoc(MemLocation {
            ptr_count: 0,
            unit_mem: UnitMemLocation::Registry(Registry::O),
        }),
    }));
}

#[test]
fn parse_line_reports_errors() {
    assert_eq!(parse_line("FOO"), Err(ParseError::UnknownKeyword));
    assert_eq!(parse_line("ADD M0"), Err(ParseError::UnknownKeyword));
    assert_eq!(parse_line("SET MX 5"), Err(ParseError::InvalidAddress));
    assert_eq!(parse_line("SET M0 999"), Err(ParseError::InvalidLiteral));
    assert_eq!(parse_line("BJMP 5x"), Err(ParseError::InvalidAddress));
    assert_eq!(parse_line("PRINT 999"), Err(ParseError::InvalidLiteral));
}

#[test]
fn printc_escapes() {
    assert_eq!(
        parse_line("PRINTC \\n"),
        Ok(CodePoint::PrintC { source: ValMemLoc::Value(10) })
    );
    assert_eq!(
        parse_line("PRINTC \\s"),
        Ok(CodePoint::PrintC { source: ValMemLoc::Value(32) })
    );
    assert_eq!(
        parse_line("PRINTC 65"),
        Ok(CodePoint::PrintC { source: ValMemLoc::Value(65) })
    );
    assert_eq!(
        parse_line("PRINTC M0"),
        Ok(CodePoint::PrintC { source: ValMemLoc::MemLoc(mem_loc(0)) })
    );
}

#[test]
fn tokenize_and_trim() {
    assert_eq!(tokenize("SET  M0\t5"), vec!["SET", "M0", "5"]);
    assert_eq!(tokenize("   "), Vec::<String>::new());
    assert_eq!(trim_line("  SET M0 5 \t"), "SET M0 5");
    assert_eq!(trim_line(""), "");
    assert!(is_comment_source("# hello"));
    assert!(!is_comment_source("SET M0 5"));
    assert!(is_routine_source("Main:"));
    assert!(!is_routine_source("Main"));
}

#[test]
fn parse_codeblock_collects_lines() {
    let lines: Vec<String> = vec!["SET M0 1".to_string(), "ADD".to_string()];
    let block = parse_codeblock(&lines).expect("block should parse");
    assert_eq!(block.code.len(), 2);
    assert_eq!(block.code[1], CodePoint::Add);
}

// --- whole programs ---

#[test]
fn parse_is_deterministic() {
    let src = "Main:\nSET I1 5\nSET I2 3\nADD\nPRINT O\nTERM";
    let a = parse_program(src);
    let b = parse_program(src);
    assert_eq!(a.routine_map.len(), b.routine_map.len());
    for (ea, eb) in a.routine_map.iter().zip(b.routine_map.iter()) {
        assert_eq!(ea.0, eb.0);
        assert_eq!(ea.1.code, eb.1.code);
    }
}

#[test]
fn parser_skips_comments_and_blanks() {
    let routines = parse_program("# a comment\n\nMain:\n  # indented comment\n  SET M0 1\n");
    assert_eq!(routines.routine_map.len(), 1);
    assert_eq!(routines.routine_map[0].0, "Main");
    assert_eq!(routines.routine_map[0].1.code.len(), 1);
}

#[test]
fn label_followed_by_label_gives_empty_routine() {
    let routines = parse_program("First:\nSecond:\nSET M0 1");
    assert_eq!(routines.routine_map.len(), 2);
    assert_eq!(routines.routine_map[0].0, "First");
    assert!(routines.routine_map[0].1.code.is_empty());
    assert_eq!(routines.routine_map[1].1.code.len(), 1);
}

#[test]
fn code_without_routine_is_an_error() {
    let lines: Vec<String> = vec!["SET M0 1".to_string(), "Main:".to_string()];
    let mut routines = Routines::new();
    assert_eq!(routines.parse(&lines), Err(ParseError::CodeWithoutRoutine));
    assert!(routines.routine_map.is_empty());
}

#[test]
fn duplicate_routine_is_an_error() {
    let lines: Vec<String> = vec![
        "Main:".to_string(),
        "SET M0 1".to_string(),
        "Main:".to_string(),
        "SET M0 2".to_string(),
    ];
    let mut routines = Routines::new();
    assert_eq!(routines.parse(&lines), Err(ParseError::DuplicateRoutine));
    // On failure the program is left unchanged: no partial program.
    assert!(routines.routine_map.is_empty());
}

#[test]
fn add_routine_rejects_duplicates() {
    let mut routines = Routines::new();
    let block = parse_codeblock(&vec!["ADD".to_string()]).unwrap();
    assert_eq!(routines.add_routine("R".to_string(), block), Ok(()));
    let block2 = parse_codeblock(&vec!["SUB".to_string()]).unwrap();
    assert_eq!(
        routines.add_routine("R".to_string(), block2),
        Err(ParseError::DuplicateRoutine)
    );
}

// --- memory model ---

#[test]
fn memory_reads_zero_out_of_range() {
    let memory = Memory::new();
    assert_eq!(memory.get(mem_loc(99)), 0);
    assert_eq!(memory.mem.len(), 0);
}

#[test]
fn memory_auto_growth() {
    let mut memory = Memory::new();
    memory.set(mem_loc(5), 77);
    assert_eq!(memory.mem.len(), 6);
    for j in 0..6 {
        if j == 5 {
            assert_eq!(memory.get(mem_loc(j)), 77);
        } else {
            assert_eq!(memory.get(mem_loc(j)), 0);
        }
    }
    assert_eq!(memory.get(mem_loc(100)), 0);
}

// --- arithmetic and comparison ---

#[test]
fn arithmetic_wraps() {
    let interp = run_program("Main:\nSET I1 250\nSET I2 10\nADD");
    assert_eq!(interp.memory.registry.o, 4);
    let interp = run_program("Main:\nSET I1 3\nSET I2 5\nSUB");
    assert_eq!(interp.memory.registry.o, 254);
    let interp = run_program("Main:\nSET I1 16\nSET I2 17\nMUL");
    assert_eq!(interp.memory.registry.o, 16);
}

#[test]
fn division_and_modulo() {
    let interp = run_program("Main:\nSET I1 17\nSET I2 5\nDIV");
    assert_eq!(interp.memory.registry.o, 3);
    let interp = run_program("Main:\nSET I1 17\nSET I2 5\nMOD");
    assert_eq!(interp.memory.registry.o, 2);
    // Division and modulo by zero yield 0: the documented total policy.
    let interp = run_program("Main:\nSET I1 17\nSET I2 0\nDIV");
    assert_eq!(interp.memory.registry.o, 0);
    let interp = run_program("Main:\nSET I1 17\nSET I2 0\nMOD");
    assert_eq!(interp.memory.registry.o, 0);
}

#[test]
fn comparison_writes_ordering() {
    let interp = run_program("Main:\nSET I1 3\nSET I2 3\nCMP");
    assert_eq!(interp.memory.registry.o, 1);
    let interp = run_program("Main:\nSET I1 2\nSET I2 5\nCMP");
    assert_eq!(interp.memory.registry.o, 0);
    let interp = run_program("Main:\nSET I1 9\nSET I2 2\nCMP");
    assert_eq!(interp.memory.registry.o, 2);
}

// --- control flow ---

#[test]
fn skip_region_skips_until_land() {
    let interp = run_program("Main:\nSET M0 1\nBJMP M0\nSET M0 9\nLAND\nSET M1 5");
    assert_eq!(interp.memory.get(mem_loc(0)), 1);
    assert_eq!(interp.memory.get(mem_loc(1)), 5);
}

#[test]
fn skip_region_not_entered_when_zero() {
    let interp = run_program("Main:\nSET M0 0\nBJMP M0\nSET M0 9\nLAND\nSET M1 5");
    assert_eq!(interp.memory.get(mem_loc(0)), 9);
    assert_eq!(interp.memory.get(mem_loc(1)), 5);
}

#[test]
fn land_outside_skip_region_is_noop() {
    let interp = run_program("Main:\nLAND\nSET M0 3");
    assert_eq!(interp.memory.get(mem_loc(0)), 3);
}

#[test]
fn pointer_indirection() {
    let interp = run_program("Main:\nSET M0 7\nSET M1 0\nCPY M2 *M1");
    assert_eq!(interp.memory.get(mem_loc(2)), 7);
}

#[test]
fn double_indirection_through_register() {
    // I1 = 1, M1 = 2, M2 = 9: **I1 reads M(M(1)) = M2.
    let interp = run_program("Main:\nSET I1 1\nSET M1 2\nSET M2 9\nCPY M3 **I1");
    assert_eq!(interp.memory.get(mem_loc(3)), 9);
}

#[test]
fn call_runs_callee_to_completion_before_returning() {
    let interp = run_program("Main:\nRADD Helper\nPRINT O\n\nHelper:\nSET I1 5\nSET I2 2\nADD\nTERM");
    assert_eq!(output_of(&interp), "7");
}

#[test]
fn tail_replace_never_resumes_caller() {
    let interp = run_program("Main:\nSET M0 1\nRSWP Other\nSET M1 9\n\nOther:\nSET M2 5");
    assert_eq!(interp.memory.get(mem_loc(0)), 1);
    // The instruction after RSWP in the caller never runs.
    assert_eq!(interp.memory.get(mem_loc(1)), 0);
    assert_eq!(interp.memory.get(mem_loc(2)), 5);
}

#[test]
fn term_returns_early() {
    let interp = run_program("Main:\nSET M0 1\nTERM\nSET M0 9");
    assert_eq!(interp.memory.get(mem_loc(0)), 1);
}

#[test]
fn undeclared_routine_is_a_recoverable_error() {
    let routines = parse_program("Main:\nRADD Ghost");
    let mut interp = Interpreter::new();
    assert_eq!(interp.execute(&routines, FUEL), Err(ExecError::UndeclaredRoutine));
}

#[test]
fn undeclared_entry_point_is_an_error() {
    let routines = parse_program("Helper:\nADD");
    let mut interp = Interpreter::new();
    assert_eq!(interp.execute(&routines, FUEL), Err(ExecError::UndeclaredRoutine));
    let mut interp2 = Interpreter::new();
    assert_eq!(
        interp2.execute_routine("Helper", &routines, FUEL),
        Ok(RunStatus::Completed)
    );
}

#[test]
fn undeclared_tail_replace_is_an_error() {
    let routines = parse_program("Main:\nRSWP Ghost");
    let mut interp = Interpreter::new();
    assert_eq!(interp.execute(&routines, FUEL), Err(ExecError::UndeclaredRoutine));
}

#[test]
fn looping_program_runs_out_of_fuel() {
    let routines = parse_program("Main:\nRSWP Main");
    let mut interp = Interpreter::new();
    assert_eq!(interp.execute(&routines, 1000), Ok(RunStatus::OutOfFuel));
}

// --- output ---

#[test]
fn end_to_end_prints_eight() {
    let interp = run_program("Main:\nSET I1 5\nSET I2 3\nADD\nPRINT O\nTERM");
    assert_eq!(output_of(&interp), "8");
}

#[test]
fn print_renders_decimal_values() {
    let interp = run_program("Main:\nPRINT 0\nPRINTC \\s\nPRINT 42\nPRINTC \\s\nPRINT 250");
    assert_eq!(output_of(&interp), "0 42 250");
}

#[test]
fn printc_emits_characters() {
    let interp = run_program("Main:\nSET M0 72\nPRINTC M0\nPRINTC 105\nPRINTC \\n");
    assert_eq!(output_of(&interp), "Hi\n");
}

// --- interchange ---

#[test]
fn program_words_round_trip() {
    let src = "Main:\nSET I1 5\nSET I2 3\nADD\nRADD Helper\nPRINT O\nTERM\n\nHelper:\nCPY M1 *M0\nPRINTC \\n\nBJMP M1\nLAND";
    let routines = parse_program(src);
    let words = routines.to_words();
    let restored = Routines::from_words(&words).expect("serialized program should restore");
    assert_eq!(restored.routine_map.len(), routines.routine_map.len());
    for (a, b) in routines.routine_map.iter().zip(restored.routine_map.iter()) {
        assert_eq!(a.0, b.0);
        assert_eq!(a.1.code, b.1.code);
    }
    // The restored program executes identically.
    let mut before = Interpreter::new();
    let mut after = Interpreter::new();
    assert_eq!(
        before.execute(&routines, FUEL).unwrap(),
        after.execute(&restored, FUEL).unwrap()
    );
    assert_eq!(output_of(&before), output_of(&after));
    assert_eq!(before.memory.mem, after.memory.mem);
    assert_eq!(before.memory.registry.o, after.memory.registry.o);
}

#[test]
fn malformed_words_are_rejected() {
    assert!(Routines::from_words(&Vec::new()).is_none());
    // A routine count with no routines behind it.
    assert!(Routines::from_words(&vec![5u64]).is_none());
    // Trailing garbage after a well-formed program.
    let routines = parse_program("Main:\nADD");
    let mut words = routines.to_words();
    words.push(99);
    assert!(Routines::from_words(&words).is_none());
}

#[test]
fn registers_read_and_write() {
    let mut regs = tinyvm::interpreter::Registry::new();
    regs.set(Registry::I1, 9);
    *regs.get_mut(Registry::O) = 3;
    assert_eq!(regs.get(Registry::I1), 9);
    assert_eq!(regs.get(Registry::O), 3);
    assert_eq!(regs.get(Registry::I2), 0);
    regs.add();
    assert_eq!(regs.get(Registry::O), 9);
}

#[test]
fn empty_source_has_no_main() {
    let routines = parse_program("");
    assert!(routines.routine_map.is_empty());
    let mut interp = Interpreter::new();
    assert_eq!(interp.execute(&routines, FUEL), Err(ExecError::UndeclaredRoutine));
}

#[test]
fn empty_main_completes_silently() {
    let interp = run_program("Main:");
    assert_eq!(output_of(&interp), "");
    assert_eq!(interp.memory.mem.len(), 0);
}

#[test]
fn routine_order_and_lookup() {
    let routines = parse_program("A:\nADD\nB:\nSUB");
    assert!(routines.get_routine("A").is_some());
    assert!(routines.get_routine("B").is_some());
    assert!(routines.get_routine("C").is_none());
}
