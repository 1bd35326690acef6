use hclrs::ast::{BinOpCode, Expr, SpannedExpr, UnOpCode, WireValue, WireWidth};
use hclrs::drawing::Drawingtool;
use hclrs::errors::Error;
use hclrs::format::{format_token_list, list_with_and, s_are, text_less};
use hclrs::io::FileContents;
use hclrs::memory::Memory;
use hclrs::parser::{parse_expr_str, parse_statements_str};
use hclrs::program::{list_with_and_plain, y86_fixed_functions, Action, Program};
use hclrs::running::{y86_status_name, RunOptions, RunningProgram};
use hclrs::y86_disasm::{disassemble, disassemble_to_string, name_cc, name_register};

fn statements(s: &str) -> Vec<hclrs::ast::Statement> {
    let mut errors = Vec::new();
    parse_statements_str(s, &mut errors).unwrap()
}

fn strings(items: &[&str]) -> Vec<String> {
    items.iter().map(|s| String::from(*s)).collect()
}

fn w(x: u128, bits: i32) -> Option<WireValue> {
    Some(WireValue::new(x).as_width(WireWidth::from(bits)))
}

#[test]
fn quoted_lists() {
    assert_eq!(list_with_and(&strings(&[])), "");
    assert_eq!(list_with_and(&strings(&["a"])), "'a'");
    assert_eq!(list_with_and(&strings(&["a", "b"])), "'a' and 'b'");
    assert_eq!(list_with_and(&strings(&["a", "b", "c"])), "a', 'b, and c");
    assert_eq!(list_with_and_plain(&strings(&["a"])), "a");
    assert_eq!(list_with_and_plain(&strings(&["a", "b"])), "a and b");
    assert_eq!(list_with_and_plain(&strings(&["a", "b", "c"])), "a, b, and c");
    assert_eq!(s_are(1), " is");
    assert_eq!(s_are(2), "s are");
}

#[test]
fn text_order() {
    assert!(text_less("a", "b"));
    assert!(text_less("ab", "abc"));
    assert!(!text_less("abc", "ab"));
    assert!(!text_less("b", "b"));
    assert!(text_less("B", "a"));
    assert!(!text_less("", ""));
    assert!(text_less("", "x"));
}

#[test]
fn token_lists() {
    assert_eq!(format_token_list(&strings(&["ID"])), "an identifier (wire name)");
    assert_eq!(
        format_token_list(&strings(&["\";\"", "ID", "CONSTANT"])),
        "';', an identifier (wire name), or an integer constant"
    );
    assert_eq!(format_token_list(&strings(&["\";\"", "\";\"", "\")\""])), "')' or ';'");
    let mut unary = strings(&["\"!\"", "\"-\"", "\"~\"", "\"(\""]);
    assert_eq!(format_token_list(&unary), "'(' or a unary operator");
    unary.push(String::from("\"+\""));
    assert_eq!(format_token_list(&unary), "'(', '+', or a unary operator");
}

#[test]
fn yo_loading() {
    let mut memory = Memory::new();
    let text = "0x000: 30f40001000000000000 |     irmovq $256, %rsp\n                            | comment\n0x00a: 00                   |     halt\n";
    assert!(memory.load_from_y86(text).is_ok());
    assert_eq!(memory.get(0), 0x30);
    assert_eq!(memory.get(1), 0xf4);
    assert_eq!(memory.get(3), 0x01);
    assert_eq!(memory.get(10), 0x00);
    assert_eq!(memory.len(), 11);
    let mut empty = Memory::new();
    assert!(matches!(empty.load_from_y86(""), Err(Error::EmptyFile())));
    let mut bad = Memory::new();
    match bad.load_from_y86("0x000: 00 |\nnot a | line\n0x001: 00 |\n") {
        Err(Error::UnparseableLine(line)) => assert_eq!(line, "0x000: 00 |"),
        _ => panic!("expected an unparseable line"),
    }
    let mut bad_byte = Memory::new();
    match bad_byte.load_from_y86("0x000: 0g                   |\n") {
        Err(Error::UnparseableLine(line)) => assert_eq!(line, "0x000: 0g                   |"),
        _ => panic!("expected an unparseable line"),
    }
}

#[test]
fn instruction_texts() {
    assert_eq!(disassemble_to_string(0x2521), (2, String::from("cmovle %rdx, %rbp")));
    assert_eq!(disassemble_to_string(0x90), (1, String::from("ret")));
    assert_eq!(disassemble_to_string(0xe0), (1, String::from("<invalid>")));
    assert_eq!(disassemble_to_string(0x0000_0000_0000_0100_80), (9, String::from("call 0x100")));
    let mut out: Vec<u8> = Vec::new();
    assert_eq!(disassemble(&mut out, 0x10), 1);
    assert_eq!(out, b"nop".to_vec());
    assert_eq!(name_register(15), "NONE");
    assert_eq!(name_register(16), "unknown");
    assert_eq!(name_cc(6), "g");
    assert_eq!(name_cc(7), "(unknown)");
    assert_eq!(y86_status_name(2), "2 (Halt)");
    assert_eq!(y86_status_name(9), "<unknown>");
}

#[test]
fn positions_in_contents() {
    let contents = FileContents::new_from_data("\n", "wire a : 1;\na = 1;\n", "x.hcl");
    assert_eq!(contents.file_and_line(1), "x.hcl:1");
    assert_eq!(contents.range(1, 14), "x.hcl:1-12");
    assert_eq!(contents.file_and_line(0), "<builtin>:0");
}

#[test]
fn assignments_ordered_before_reads() {
    let program = Program::new(statements("wire a : 8; wire b : 8; wire c : 8; c = b + 1; b = a + 1; a = 5;"), vec![])
        .unwrap();
    let names: Vec<String> = program
        .actions()
        .iter()
        .filter_map(|a| match a {
            Action::Assign(name, _, _) => Some(name.clone()),
            _ => None,
        })
        .collect();
    assert_eq!(names, strings(&["a", "b", "c"]));
    let mut running = RunningProgram::new(program, 0, 0);
    running.step().unwrap();
    assert_eq!(running.values().get("c").copied(), w(7, 8));
}

#[test]
fn circular_assignments_refused() {
    let result = Program::new(statements("wire a : 8; wire b : 8; a = b; b = a;"), vec![]);
    match result {
        Err(Error::MultipleErrors(errors)) => {
            assert_eq!(errors.len(), 1);
            assert!(matches!(errors[0], Error::WireLoop(_)));
        }
        _ => panic!("expected a wire loop"),
    }
}

#[test]
fn register_none_never_written() {
    let program = Program::new_y86(statements(
        "Stat = 1; pc = 0; reg_dstE = 15; reg_inputE = 7; reg_dstM = 3; reg_inputM = 9;",
    ))
    .unwrap();
    let mut running = RunningProgram::new_y86(program);
    running.step().unwrap();
    let text = running.dump_y86_str();
    assert!(text.contains("RBX:                9"));
    assert!(!text.contains("               7"));
}

#[test]
fn y86_fixed_functionality() {
    let fixed = y86_fixed_functions();
    assert_eq!(fixed.len(), 8);
    assert_eq!(fixed[0].name, "processor status");
    assert!(fixed[0].mandatory);
    assert_eq!(fixed[1].out_wire.as_ref().unwrap().name, "i10bytes");
    assert_eq!(fixed[2].in_wires.len(), 2);
    assert_eq!(fixed[3].in_wires.len(), 3);
    assert!(fixed.iter().all(|f| f.is_wf()));
}

#[test]
fn run_options() {
    let mut options = RunOptions::default();
    assert_eq!(options.timeout(), 1000);
    assert!(!options.quiet());
    options.set_timeout(5);
    options.set_quiet();
    assert_eq!(options.timeout(), 5);
    assert!(options.quiet());
    assert!(!options.debug());
    assert!(!options.prompt());
    options.set_prompt();
    assert!(options.prompt());
}

#[test]
fn initial_register_values() {
    let program = Program::new(statements("register pQ { a : 8 = 3; }\n p_a = Q_a;"), vec![]).unwrap();
    let running = RunningProgram::new(program, 4, 3);
    assert_eq!(running.values().get("Q_a").copied(), w(3, 8));
    assert_eq!(running.values().get("p_a").copied(), w(3, 8));
    assert_eq!(running.values().get("stall_Q").copied(), w(0, 1));
    assert_eq!(running.values().get("bubble_Q").copied(), w(0, 1));
    assert_eq!(running.cycle(), 0);
}

#[test]
fn operator_words() {
    let tool = Drawingtool::new(String::from("pc"), String::from("F"));
    assert_eq!(tool.symbol_to_words(String::from("+")), "addition");
    assert_eq!(tool.symbol_to_words(String::from("?")), "null");
    assert_eq!(tool.un_op_to_string(String::from("!")), "Not");
    assert_eq!(tool.certain_symbol_to_words(String::from("&&")), "_andand_");
}

fn without_positions(e: SpannedExpr) -> SpannedExpr {
    let inner = match *e.expr {
        Expr::BinOp(op, l, r) => Expr::BinOp(op, without_positions(l), without_positions(r)),
        Expr::UnOp(op, x) => Expr::UnOp(op, without_positions(x)),
        Expr::InSet(l, items) => Expr::InSet(without_positions(l), items.into_iter().map(without_positions).collect()),
        other => other,
    };
    SpannedExpr::new((0, 0), inner)
}

fn wire(name: &str) -> SpannedExpr {
    SpannedExpr::new((0, 0), Expr::NamedWire(String::from(name)))
}

#[test]
fn in_binds_tighter_than_and() {
    let parsed = without_positions(parse_expr_str("!foo && bar in {QUUX}").unwrap());
    let expected = SpannedExpr::new(
        (0, 0),
        Expr::BinOp(
            BinOpCode::LogicalAnd,
            SpannedExpr::new((0, 0), Expr::UnOp(UnOpCode::Not, wire("foo"))),
            SpannedExpr::new((0, 0), Expr::InSet(wire("bar"), vec![wire("QUUX")])),
        ),
    );
    assert_eq!(parsed, expected);
}

#[test]
fn comparisons_do_not_chain() {
    assert!(parse_expr_str("a == b == c").is_err());
    assert!(parse_expr_str("(a == b) == c").is_ok());
}

#[test]
fn memory_dump_rows() {
    let mut memory = Memory::new();
    memory.set(0x21, 0xcd);
    memory.set(0x5, 0xab);
    let header = "| used memory:   _0 _1 _2 _3  _4 _5 _6 _7   _8 _9 _a _b  _c _d _e _f    |\n";
    let blank = "   ";
    let first = format!(" ab{}{}  {} {}    |\n", blank, blank, blank.repeat(4), blank.repeat(4));
    let second = format!(
        "|  0x0000002_:  {} cd{}{} {}  {} {}    |\n",
        blank,
        blank,
        blank,
        blank.repeat(4),
        blank.repeat(4),
        blank.repeat(4)
    );
    assert_eq!(memory.dump_memory_y86(), format!("{}{}{}", header, first, second));
}

#[test]
fn memory_dump_empty() {
    let memory = Memory::new();
    assert_eq!(
        memory.dump_memory_y86(),
        "| used memory:   _0 _1 _2 _3  _4 _5 _6 _7   _8 _9 _a _b  _c _d _e _f    |\n"
    );
}

#[test]
fn declared_wire_must_be_set() {
    let result = Program::new(statements("wire a : 8; wire b : 8; a = 1;"), vec![]);
    match result {
        Err(Error::MultipleErrors(errors)) => {
            assert_eq!(errors.len(), 1);
            assert!(matches!(errors[0], Error::UnsetWire(_, _)));
        }
        _ => panic!("expected an unset wire"),
    }
}

#[test]
fn wire_set_only_once() {
    let result = Program::new(statements("wire a : 8; a = 1; a = 2;"), vec![]);
    match result {
        Err(Error::MultipleErrors(errors)) => {
            assert_eq!(errors.len(), 1);
            assert!(matches!(errors[0], Error::DoubleAssignedWire(_, _, _)));
        }
        _ => panic!("expected a wire set twice"),
    }
    assert!(Program::new(statements("wire a : 8, b : 8; a, b = 1;"), vec![]).is_ok());
}

#[test]
fn new_program_times_out_after_1000_cycles() {
    let program = Program::new(statements("wire a : 8; a = 1;"), vec![]).unwrap();
    let running = RunningProgram::new(program, 4, 3);
    assert_eq!(running.options().timeout(), 1000);
    assert!(!running.timed_out());
}

#[test]
fn step_traces_assignments_in_order() {
    let program = Program::new(statements("wire a : 8; wire b : 8; a = 5; b = a + 2;"), vec![]).unwrap();
    let mut running = RunningProgram::new(program, 4, 3);
    let mut options = RunOptions::default();
    options.set_trace_assignments();
    running.set_options(options);
    let mut out: Vec<u8> = Vec::new();
    assert!(running.step_with_output(&mut out).is_ok());
    assert_eq!(String::from_utf8(out).unwrap(), "a set to 5\nb set to 7\n");
}

#[test]
fn step_without_trace_writes_nothing() {
    let program = Program::new(statements("wire a : 8; a = 5;"), vec![]).unwrap();
    let mut running = RunningProgram::new(program, 4, 3);
    let mut out: Vec<u8> = vec![1, 2];
    assert!(running.step_with_output(&mut out).is_ok());
    assert_eq!(out, vec![1, 2]);
}

#[test]
fn program_constants_are_their_expressions_values() {
    let program = Program::new(
        statements("const A = 3; const B = A + 2, C = B * B; wire x : 8; x = C;"),
        vec![],
    )
    .unwrap();
    let constants = program.constants();
    assert_eq!(constants.get("A").unwrap().bits, 3);
    assert_eq!(constants.get("B").unwrap().bits, 5);
    assert_eq!(constants.get("C").unwrap().bits, 25);
    assert!(constants.get("x").is_none());
}
