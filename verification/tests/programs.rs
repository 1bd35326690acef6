use hclrs::ast::{WireValue, WireWidth};
use hclrs::graph::Graph;
use hclrs::memory::Memory;
use hclrs::parser::parse_statements_str;
use hclrs::program::Program;
use hclrs::running::{RunOptions, RunningProgram};
use hclrs::wires::{NameMap, WireValues};
use hclrs::y86_disasm::disassemble_to_string;
use std::collections::HashSet;

fn statements(s: &str) -> Vec<hclrs::ast::Statement> {
    let mut errors = Vec::new();
    parse_statements_str(s, &mut errors).unwrap()
}

fn w(x: u128, bits: i32) -> Option<WireValue> {
    Some(WireValue::new(x).as_width(WireWidth::from(bits)))
}

#[test]
fn simple_program() {
    let statements = statements(
        "const x = 42; wire y : 32; wire z : 32;
         z = [x > 43: 0; x < 43: y << 3; x == 43: 0]; y = x * 2;",
    );
    let program = Program::new(statements, vec!()).unwrap();
    let mut running_program = RunningProgram::new(program, 0, 0);
    let mut expect_values: WireValues = NameMap::new();
    expect_values.insert(String::from("x"), WireValue::from_decimal("42"));
    assert_eq!(running_program.values(), &expect_values);
    running_program.step().unwrap();
    expect_values.insert(String::from("y"), WireValue::from_decimal("84").as_width(WireWidth::from(32)));
    expect_values.insert(String::from("z"), WireValue::from_decimal("672").as_width(WireWidth::from(32)));
    assert_eq!(running_program.values(), &expect_values);
}

#[test]
fn program_registers() {
    let statements = statements(
        "register xY { a: 32 = 1; };
         x_a = Y_a + 1;",
    );
    let program = Program::new(statements, vec!()).unwrap();
    assert!(program.defaulted_wires().contains(&String::from("stall_Y")));
    assert!(program.defaulted_wires().contains(&String::from("bubble_Y")));
    let mut running_program = RunningProgram::new(program, 0, 0);
    assert_eq!(running_program.values().get("Y_a").copied(), w(1, 32));
    assert_eq!(running_program.values().get("x_a").copied(), w(1, 32));
    running_program.step().unwrap();
    assert_eq!(running_program.values().get("Y_a").copied(), w(2, 32));
    assert_eq!(running_program.values().get("x_a").copied(), w(2, 32));
    running_program.step().unwrap();
    assert_eq!(running_program.values().get("Y_a").copied(), w(3, 32));
    assert_eq!(running_program.values().get("x_a").copied(), w(3, 32));
}

#[test]
fn program_registers_stall() {
    let statements = statements(
        "register xY { a: 32 = 1; };
         x_a = Y_a + 1;
         stall_Y = x_a > 2;",
    );
    let program = Program::new(statements, vec!()).unwrap();
    assert!(!program.defaulted_wires().contains(&String::from("stall_Y")));
    assert!(program.defaulted_wires().contains(&String::from("bubble_Y")));
    let mut running_program = RunningProgram::new(program, 0, 0);
    assert_eq!(running_program.values().get("Y_a").copied(), w(1, 32));
    assert_eq!(running_program.values().get("x_a").copied(), w(1, 32));
    running_program.step().unwrap();
    assert_eq!(running_program.values().get("Y_a").copied(), w(2, 32));
    assert_eq!(running_program.values().get("x_a").copied(), w(2, 32));
    running_program.step().unwrap();
    assert_eq!(running_program.values().get("Y_a").copied(), w(2, 32));
    assert_eq!(running_program.values().get("x_a").copied(), w(3, 32));
}

#[test]
fn program_registers_bubble() {
    let statements = statements(
        "register xY { a: 32 = 1; };
         x_a = Y_a + 1;
         bubble_Y = x_a > 2;",
    );
    let program = Program::new(statements, vec!()).unwrap();
    assert!(program.defaulted_wires().contains(&String::from("stall_Y")));
    assert!(!program.defaulted_wires().contains(&String::from("bubble_Y")));
    let mut running_program = RunningProgram::new(program, 0, 0);
    assert_eq!(running_program.values().get("Y_a").copied(), w(1, 32));
    assert_eq!(running_program.values().get("x_a").copied(), w(1, 32));
    running_program.step().unwrap();
    assert_eq!(running_program.values().get("Y_a").copied(), w(2, 32));
    assert_eq!(running_program.values().get("x_a").copied(), w(2, 32));
    running_program.step().unwrap();
    assert_eq!(running_program.values().get("Y_a").copied(), w(1, 32));
    assert_eq!(running_program.values().get("x_a").copied(), w(3, 32));
}

#[test]
fn memory_program() {
    let statements = statements(
        "register xX { count: 64 = 1; }
        mem_readbit = X_count & 1 == 1;
        mem_writebit = !mem_readbit;
        mem_addr = 0x8 + X_count;
        mem_input = 0x0123456789ABCDEF;
        x_count = X_count + 1;
        pc = 0; Stat = 1;
        ",
    );
    let program = Program::new_y86(statements).unwrap();
    let mut running_program = RunningProgram::new_y86(program);
    assert_eq!(running_program.values().get("X_count").copied(), w(1, 64));
    assert_eq!(running_program.values().get("x_count").copied(), w(1, 64));
    running_program.step().unwrap();
    assert_eq!(running_program.values().get("mem_output").copied(), w(0, 64));
    running_program.step().unwrap();
    assert_eq!(running_program.values().get("mem_output").copied(), w(0, 64));
    running_program.step().unwrap();
    assert_eq!(
        running_program.values().get("mem_output").copied(),
        Some(WireValue::from_hexadecimal("000123456789ABCD").as_width(WireWidth::from(64)))
    );
}

#[test]
fn terminate_timeout() {
    let statements = statements(
        "
        pc = 0; Stat = 1;
        ",
    );
    let program = Program::new_y86(statements).unwrap();
    let mut running_program = RunningProgram::new_y86(program);
    let mut options: RunOptions = Default::default();
    options.set_timeout(3);
    running_program.set_options(options);
    let mut result_vec = Vec::new();
    running_program.run(&mut result_vec).unwrap();
    let result_str = String::from_utf8(result_vec.clone()).unwrap();
    assert!(!result_str.contains("timed out"));
    running_program.dump_y86(&mut result_vec).unwrap();
    let result_str = String::from_utf8(result_vec).unwrap();
    assert_eq!(running_program.cycle(), 3);
    assert!(result_str.contains("timed out"));
}

#[test]
fn terminate_halt() {
    let statements = statements(
        "
        register xX { count: 32 = 1; };
        x_count = X_count + 1;
        pc = 0; Stat = [
            X_count == 3 : 2;
            1: 1;
        ]
        ",
    );
    let program = Program::new_y86(statements).unwrap();
    let mut running_program = RunningProgram::new_y86(program);
    let mut options: RunOptions = Default::default();
    options.set_timeout(10);
    running_program.set_options(options);
    let mut result_vec = Vec::new();
    running_program.run(&mut result_vec).unwrap();
    let result_str = String::from_utf8(result_vec.clone()).unwrap();
    assert!(!result_str.contains("halted"));
    running_program.dump_y86(&mut result_vec).unwrap();
    let result_str = String::from_utf8(result_vec).unwrap();
    assert_eq!(running_program.cycle(), 3);
    assert!(result_str.contains("halted"));
}

#[test]
fn regfile_program() {
    let statements = statements(
        "register xX { count: 64 = 0; }
        wire count: 64;
        count = X_count;
        reg_inputE = count + 24;
        reg_dstE = (count & 0xF)[0..4];
        reg_srcA = ((count - 1) & 0xF)[0..4];
        x_count = X_count + 1;
        pc = 0; Stat = 1;
        ",
    );
    let program = Program::new_y86(statements).unwrap();
    let mut running_program = RunningProgram::new_y86(program);
    running_program.step().unwrap();
    assert_eq!(running_program.values().get("reg_outputA").copied(), w(0, 64));
    running_program.step().unwrap();
    assert_eq!(running_program.values().get("reg_outputA").copied(), w(24, 64));
    running_program.step().unwrap();
    assert_eq!(running_program.values().get("reg_outputA").copied(), w(25, 64));
    running_program.step().unwrap();
    assert_eq!(running_program.values().get("reg_outputA").copied(), w(26, 64));
    for _ in 3..16 {
        running_program.step().unwrap();
    }
    assert_eq!(running_program.values().get("reg_outputA").copied(), w(0, 64));
    running_program.step().unwrap();
    assert_eq!(running_program.values().get("reg_outputA").copied(), w(40, 64));
}

#[test]
fn debug_output() {
    let statements = statements(
        "wire foo_bar_baz_quux : 32;
        foo_bar_baz_quux = 0x42;
        Stat = 0;
        pc = 0;
        ",
    );
    let program = Program::new_y86(statements).unwrap();
    let mut running_program = RunningProgram::new_y86(program);
    let mut options = RunOptions::default();
    options.set_debug();
    running_program.set_options(options);
    let mut result: Vec<u8> = Vec::new();
    running_program.step_with_output(&mut result).unwrap();
    let result_as_string = String::from_utf8_lossy(result.as_slice()).into_owned();
    assert!(result_as_string.contains("foo_bar_baz_quux              0x00000042"));
    assert!(result_as_string.contains("i10bytes          0x00000000000000000000"));
}

#[test]
fn debug_output_register() {
    let statements = statements(
        "
        register xY {
            a : 32 = 0x1234;
        }
        x_a = 0x42;
        Stat = 0;
        pc = 0;
        ",
    );
    let program = Program::new_y86(statements).unwrap();
    let mut running_program = RunningProgram::new_y86(program);
    let mut options = RunOptions::default();
    options.set_debug();
    running_program.set_options(options);
    let mut result: Vec<u8> = Vec::new();
    running_program.step_with_output(&mut result).unwrap();
    let result_as_string = String::from_utf8_lossy(result.as_slice()).into_owned();
    assert!(result_as_string.contains("Y_a                   0x00001234"));
    assert!(result_as_string.contains("x_a                   0x00000042"));
    assert!(result_as_string.contains("i10bytes  0x00000000000000000000"));
    assert!(!result_as_string.contains("stall_Y"));
}

fn verify_sort(graph: &Graph) {
    if let Ok(the_result) = graph.topological_sort() {
        let mut seen = HashSet::new();
        for node in &the_result {
            for other in graph.out_edges(node) {
                assert!(!seen.contains(&other), "{:?} -> {:?} violates order {:?}", node, other, the_result);
            }
            seen.insert(node.clone());
        }
    } else {
        assert!(false);
    }
}

#[test]
fn graph_sorts() {
    let mut graph = Graph::new();
    graph.insert("foo", "bar");
    graph.insert("bar", "baz");
    verify_sort(&graph);
    graph.insert("foo", "baz");
    verify_sort(&graph);
    graph.insert("foo", "quux");
    graph.insert("quux", "other");
    verify_sort(&graph);
    graph.add_node("unused");
    verify_sort(&graph);
}

#[test]
fn memory_ops() {
    let mut memory = Memory::new();
    assert_eq!(memory.read(0, 8), WireValue { bits: 0, width: WireWidth::Bits(64) });
    assert_eq!(memory.read(1, 8), WireValue { bits: 0, width: WireWidth::Bits(64) });
    assert_eq!(memory.read(9, 4), WireValue { bits: 0, width: WireWidth::Bits(32) });
    memory.write(1, 0x0123456789ABCDEF, 8);
    assert_eq!(memory.read(5, 4), WireValue { bits: 0x01234567, width: WireWidth::Bits(32) });
    assert_eq!(memory.read(3, 2), WireValue { bits: 0x89AB, width: WireWidth::Bits(16) });
}

fn from_parts(hi: u64, lo: u64) -> u128 {
    ((hi as u128) << 64) | (lo as u128)
}

#[test]
fn simple() {
    assert_eq!(disassemble_to_string(0x00), (1, String::from("halt")));
    assert_eq!(disassemble_to_string(0x10), (1, String::from("nop")));
    assert_eq!(disassemble_to_string(0x3fb0), (2, String::from("popq %rbx")));
    assert_eq!(disassemble_to_string(0x3fa0), (2, String::from("pushq %rbx")));
    assert_eq!(disassemble_to_string(0x8920), (2, String::from("rrmovq %r8, %r9")));
    assert_eq!(disassemble_to_string(from_parts(0xAAAAAAAAAAAAAA00, 0xDEADBEEF71)), (9, String::from("jle 0xdeadbeef")));
    assert_eq!(disassemble_to_string(0x8961), (2, String::from("subq %r8, %r9")));
    assert_eq!(
        disassemble_to_string(from_parts(0xAAAAAAAAAAAA0000, 0x0000DEADBEEF8940)),
        (10, String::from("rmmovq %r8, 0xdeadbeef(%r9)"))
    );
    assert_eq!(
        disassemble_to_string(from_parts(0x000000000000FFFF, 0xFFFFFFFFFFFFFA30)),
        (10, String::from("irmovq $0xffffffffffffffff, %r10"))
    );
}
