use hclrs::io::FileContents;
use hclrs::parser::parse_statements_str;
use hclrs::{parse_y86_hcl, Y86_PREAMBLE};

fn get_errors_for(code: &str) -> String {
    let file_contents = FileContents::new_from_data(Y86_PREAMBLE, code, "test.hcl");
    match parse_y86_hcl(&file_contents) {
        Ok(_) => {
            panic!("expected compilation failure");
        },
        Err(e) => {
            let mut output: Vec<u8> = Vec::new();
            e.format_for_contents(&mut output, &file_contents).unwrap();
            return String::from_utf8(output).unwrap();
        }
    }
}

#[test]
fn error_mux_widths() {
    let message = get_errors_for("
wire foo : 10, bar: 11, quux: 10;
foo = 0;
bar = 1;
quux = [
    foo > 42 : 1;
    foo > 3 : foo;
    foo < 3 : bar;
    1 : 0b0;
];
Stat = STAT_AOK;
pc = 0;
");
    assert!(message.contains("Mismatched wire widths for mux options"));
    assert!(message.contains("1 option is 10 bits wide"));
    assert!(message.contains("1 option is 11 bits wide"));
    assert!(message.contains("1 option is 1 bits wide"));
    assert!(message.contains("foo > 3 : foo;"));
    assert!(message.contains("foo < 3 : bar;"));
    assert!(message.contains("1 : 0b0;"));
}

#[test]
fn error_expr_widths() {
    let message = get_errors_for("
wire foo : 10, bar: 11, quux: 10;
foo = 0;
bar = 1;
quux = foo
            &
       bar;
Stat = STAT_AOK;
pc = 0;
");
    assert!(message.contains("Mismatched wire widths."));
    assert!(message.contains("is 10 bits wide"));
    assert!(message.contains("is 11 bits wide"));
    assert!(message.contains("quux = foo"));
    assert!(message.contains("bar;"));
}

#[test]
fn error_wire_widths() {
    let message = get_errors_for("
wire foo : 10, bar: 11;
foo = 0;
bar = foo;
Stat = STAT_AOK;
pc = 0;
");
    assert!(message.contains("Mismatched wire widths."));
    assert!(message.contains("The wire 'bar' is declared as 11 bits wide."));
    assert!(message.contains("a 10 bit wide value is assigned to it"));
    assert!(message.contains("foo;"));
}

#[test]
fn error_register_init_widths() {
    let message = get_errors_for("
register xF {
    foo : 14 = 0b100;
};

x_foo = 1;

Stat = STAT_AOK;
pc = 0;
");
    assert!(message.contains("Register 'foo' in bank 'xF' is 14 bits wide, but "));
    assert!(message.contains("3 bits wide:"));
    assert!(message.contains("= 0b100"));
}

#[test]
fn error_duplicate_register() {
    let message = get_errors_for("
register xF {
    foo : 14 = 0;
    foo : 14 = 0;
};

Stat = STAT_AOK;
pc = 0;
");
    assert!(message.contains("Register 'foo' in bank 'xF' defined twice."));
}

#[test]
fn error_undefined_wire_assign() {
    let message = get_errors_for("
foo = 42;
Stat = STAT_AOK;
pc = 0;
");
    assert!(message.contains("Undeclared wire 'foo' assigned value:"));
    assert!(message.contains("foo = 42;"));
}

#[test]
fn error_undefined_wire_read() {
    let message = get_errors_for("
wire foo : 16;
foo = bar + 42;
Stat = STAT_AOK;
pc = 0;
");
    assert!(message.contains("Usage of undeclared wire 'bar' in expression:"));
    assert!(message.contains("bar + 42"));
}

#[test]
fn error_nonconstant_wire_read_constant() {
    let message = get_errors_for("
wire quux : 16;
const FOO = quux + 42;
quux = 42;
Stat = STAT_AOK;
pc = 0;
");
    assert!(message.contains("Usage of non-constant wire 'quux' in initial or constant value:"));
    assert!(message.contains("quux + 42"));
}

#[test]
fn error_unset_wire() {
    let message = get_errors_for("
wire quux : 16;
Stat = STAT_AOK;
pc = 0;
");
    assert!(message.contains("Wire 'quux' never assigned but defined here:"));
    assert!(message.contains("quux : 16"));
}

#[test]
fn error_unset_builtin_wire_mandatory() {
    let message = get_errors_for("
pc = 0;
");
    assert!(message.contains("Wire 'Stat' required by fixed functionality but never assigned."));
}

#[test]
fn error_unset_builtin_wire_inferred() {
    let message = get_errors_for("
wire dummy : 64;
pc = 0;
Stat = STAT_AOK;
mem_readbit = 1;
dummy = mem_output;
");
    assert!(message.contains("Wire 'mem_addr' required by fixed functionality but never assigned."));
}

#[test]
fn error_redeclared_wire() {
    let message = get_errors_for("
wire foo : 64;
wire foo : 32;
foo = 0;
pc = 0;
Stat = STAT_AOK;
");
    assert!(message.contains("Wire 'foo' redeclared."));
    assert!(message.contains("foo : 64"));
    assert!(message.contains("foo : 32"));
}

#[test]
fn error_double_assigned_wire() {
    let message = get_errors_for("
wire foo : 64;
foo = 0;
foo = 1;
pc = 0;
Stat = STAT_AOK;
");
    assert!(message.contains("Wire 'foo' assigned twice. Assigned here:"));
    assert!(message.contains("foo = 0"));
    assert!(message.contains("foo = 1"));
}

#[test]
fn error_double_assigned_fixed_wire() {
    let message = get_errors_for("
pc = 0;
i10bytes = 42;
Stat = STAT_AOK;
");
    assert!(message.contains("Wire 'i10bytes' is output for fixed functionality but is assigned here:"));
    assert!(message.contains("i10bytes = 42"));
}

#[test]
fn error_redeclared_builtin_wire() {
    let message = get_errors_for("
wire i10bytes : 64;
pc = 0;
Stat = STAT_AOK;
");
    assert!(message.contains("Builtin wire 'i10bytes' redeclared here:"));
    assert!(message.contains("wire i10bytes : 64"));
}

#[test]
fn error_partial_fixed() {
    let message = get_errors_for("
pc = 0;
Stat = STAT_AOK;
mem_addr = 0x42;
");
    assert!(message.contains("Wire 'mem_addr' set, but not the rest of this piece of fixed functionality."));
    assert!(message.contains("Did you mean to set mem_readbit?"));
    assert!(message.contains("Did you mean to set mem_input and mem_writebit?"));
}

#[test]
fn error_wire_loop() {
    let message = get_errors_for("
wire quux : 64;
quux = i10bytes[0..64];
pc = quux + 42;
Stat = STAT_AOK;
");
    assert!(message.contains("Circular dependency detected:"));
    assert!(message.contains("'i10bytes' depends on 'pc'"));
    assert!(message.contains("'pc' depends on 'quux'"));
    assert!(message.contains("'quux' depends on 'i10bytes'"));
}

#[test]
fn error_wire_loop_via_reg() {
    let message = get_errors_for("
pc = 0;
Stat = STAT_AOK;
wire quux : 64;
reg_srcA = quux[0..4];
quux = reg_outputA;
");
    assert!(message.contains("Circular dependency detected:"));
    assert!(message.contains("'reg_srcA' depends on 'quux'"));
    assert!(message.contains("'quux' depends on 'reg_outputA'"));
    assert!(message.contains("'reg_outputA' depends on 'reg_srcA'"));
}

#[test]
fn error_wire_loop_via_memory() {
    let message = get_errors_for("
pc = 0;
Stat = STAT_AOK;
wire quux : 64;
mem_addr = 0;
mem_readbit = quux[0..1];
quux = mem_output;
");
    assert!(message.contains("Circular dependency detected:"));
    assert!(message.contains("'mem_readbit' depends on 'quux'"));
    assert!(message.contains("'quux' depends on 'mem_output'"));
    assert!(message.contains("'mem_output' depends on 'mem_readbit'"));
}

#[test]
fn error_invalid_wire_width() {
    let message = get_errors_for("
pc = 0;
Stat = STAT_AOK;
wire foo : 129;
");
    assert!(message.contains("Invalid wire width specified."));
}

#[test]
fn error_register_bank_name() {
    let message = get_errors_for("
pc = 0;
Stat = STAT_AOK;
register badName {
    foo : 64 = 0;
}
");
    assert!(message.contains("Register bank name 'badName' invalid."));
}

#[test]
fn error_invalid_bit_index() {
    let message = get_errors_for("
wire foo : 2;
foo = (i10bytes + 42)[79..81];
pc = 0;
Stat = STAT_AOK;
");
    assert!(message.contains("Bit index '81' out of range for expression:"));
    assert!(message.contains("(i10bytes + 42)[79..81]"));
}

#[test]
fn error_non_boolean_width() {
    let message = get_errors_for("
wire foo : 1;
foo = (pc == 42) || (pc + 42);
pc = 0;
Stat = STAT_AOK;
");
    assert!(message.contains("Non-boolean value used with boolean operator:"));
    assert!(message.contains("pc + 42"));
}

#[test]
fn error_non_bit_width() {
    let message = get_errors_for("
wire foo : 88;
foo = (42 .. pc);
pc = 0;
Stat = STAT_AOK;
");
    assert!(message.contains("Expression with unknown width used in bit concatenation:"));
    assert!(message.contains("42 .. pc"));
}

#[test]
fn error_misordered_indexes() {
    let message = get_errors_for("
wire foo : 4;
foo = i10bytes[9..3];
pc = 0;
Stat = STAT_AOK;
");
    assert!(message.contains("Bit selection expression selects less than 0 bits:"));
    assert!(message.contains("i10bytes[9..3]"));
}

#[test]
fn error_invalid_constant() {
    let message = get_errors_for("
pc = 0x1234567890ABCDEF01234567890ABCDEFA;
Stat = STAT_AOK;
");
    assert!(message.contains("Constant value is out of range:"));
    assert!(message.contains("0x123456789"));
}

#[test]
fn error_wire_too_wide() {
    let message = get_errors_for("
wire foo : 64;
foo = (i10bytes .. i10bytes)[32..96];
pc = 0;
Stat = STAT_AOK;
");
    assert!(message.contains("Expression would produce a value wider than supported (128 bits):"));
    assert!(message.contains("i10bytes .. i10bytes"));
}

#[test]
fn error_unterminated_comment() {
    let message = get_errors_for("
wire foo : 64;
/* This is the start of the comment

which has more lines
");
    assert!(message.contains("Unterminated comment starting here:"));
    assert!(message.contains("This is the start of the comment"));
}

#[test]
fn error_missing_semicolon_statement() {
    let message = get_errors_for("
pc = 0
Stat = STAT_AOK;
");
    assert!(message.contains("Unexpected token 'Stat', expected"));
    assert!(message.contains("Missing semicolon"));
}

#[test]
fn error_missing_semicolon_register() {
    let message = get_errors_for("
register xF {
    foo : 10 = 0
    bar : 10 = 1
}
pc = 0;
Stat = STAT_AOK;
");
    assert!(message.contains("Unexpected token 'bar', expected"));
    assert!(message.contains("Missing semicolon"));
}

#[test]
fn error_recovery_expr() {
    let message = get_errors_for("
register xF {
    foo : 10 = 0
    bar : 10 = 1
}
register yZ {
    quux : 10 = 0
    baz : 10 = 1
}
pc = 0;
Stat = STAT_AOK;
");
    assert!(message.contains("Unexpected token 'bar', expected"));
    assert!(message.contains("Unexpected token 'baz', expected"));
}

#[test]
fn error_recovery_register_decl() {
    let message = get_errors_for("
register xF {
    foo : 10 = 0
    bar : 10 = 1
}
register yZ {
    >foo : 10 = 0;
    quux : 10 = 0
    baz : 10 = 1
}
pc = 0;
Stat = STAT_AOK;
");
    assert!(message.contains("Unexpected token 'bar', expected"));
    assert!(message.contains("Unexpected token 'baz', expected"));
}

#[test]
fn error_recovery_statement() {
    let message = get_errors_for("
wire foo : 32, bar : 32;
>foo = 0;
foo = 42
bar = foo;
pc = 0;
Stat = STAT_AOK;
");
    assert!(message.contains("Unexpected token '>', expected"));
    assert!(message.contains("Unexpected token 'bar', expected"));
}

#[test]
fn error_summarize_binary_operators() {
    let message = get_errors_for("
wire foo : 32, bar : 32;
foo = (bar bar);
bar = 42;
pc = 0;
Stat = STAT_AOK;
");
    assert!(message.contains("Unexpected token 'bar', expected"));
    assert!(message.contains("a binary operator"));
    assert!(message.contains("a comparison operator"));
    assert!(message.contains("\'..\'"));
    assert!(message.contains("\'[\'"));
}

#[test]
fn error_double_equals() {
    let message = get_errors_for("
wire foo : 32, bar : 32;
foo = (bar == bar == quux);
bar = 42;
pc = 0;
Stat = STAT_AOK;
");
    assert!(message.contains("Unexpected token '==', expected"))
}



#[test]
fn error_summarize_unary_operators() {
    let message = get_errors_for("
wire foo : 32, bar : 32;
foo = (bar + );
bar = 42;
pc = 0;
Stat = STAT_AOK;
");
    assert!(message.contains("Unexpected token ')', expected"));
    assert!(message.contains("a unary operator"));
    assert!(message.contains("an identifier"));
    assert!(message.contains("an integer constant"));
    assert!(message.contains("\'[\'"));
}

#[test]
fn regression_symbol_type_mismatch() {
    let mut errors = Vec::new();
    parse_statements_str(
        "const CMOVXX = 0b0100;
         e_dstE = [ 1: 0; ]
         Stat = STAT_AOK;
         ", &mut errors).unwrap();
}

#[test]
fn regression_bogus_mux_width() {
    let message = get_errors_for(
        "register eM { icode:4=0; dstE:4 = REG_NONE; }
         wire conditionsMet:1;
         conditionsMet = 0;
         e_icode  = CMOVXX;
         e_dstE = [ e_icode == CMOVXX &! conditionsMet:  REG_NONE; ];
         Stat = 0;
         pc = 0;
         ");
    assert!(message.contains("Mismatched wire widths"));
}

#[test]
fn error_recovery_midassignment() {
    let message = get_errors_for(
        "foo := 1;
         Stat = STAT_AOK;
         pc = 0;
         ");
    assert!(message.contains("Unexpected token ':', expected"));
    assert!(!message.contains("Found expression, expected"));
}

#[test]
fn error_recovery_missing_register_width1() {
    // TODO: custom error for this case?
    let message = get_errors_for(
        "register xX {
            foo = 42;
            bar : 32 = * 42;
        }"
    );
    assert!(message.contains("Register declaration missing width"));
    assert!(message.contains("Unexpected token '*', expected"));
}

#[test]
fn error_recovery_missing_register_width2() {
    let message = get_errors_for(
        "register xX {
            foo : = 42;
            bar : 32 = * 42;
        }"
    );
    assert!(message.contains("Unexpected token '=', expected"));
    assert!(message.contains("Unexpected token '*', expected"));
}

#[test]
fn error_recovery_register_early_semi() {
    // TODO: custom error for this case?
    let message = get_errors_for(
        "register xX {
            foo;
            bar : 32 = * 42;
        }"
    );
    assert!(message.contains("Unexpected token ';', expected"));
    assert!(message.contains("Unexpected token '*', expected"));
}

#[test]
fn error_recovery_const_width() {
    // TODO: custom error for this case?
    let message = get_errors_for(
        "const FOO : 42 = 0;
         const BAR * 42 = 0;"
    );
    assert!(message.contains("Constant declaration has unsupported"));
    assert!(message.contains("Unexpected token '*', expected"));
}

#[test]
fn error_recovery_wire_value_and_width() {
    let message = get_errors_for(
        "wire foo : 42 = 0;
         wire foo : * 42;"
    );
    assert!(message.contains("declaration must be separate from assignment"));
    assert!(message.contains("Unexpected token '*', expected"));
}

#[test]
fn error_recovery_wire_value_no_width() {
    let message = get_errors_for(
        "wire foo = 0;
         wire foo : * 42;"
    );
    assert!(message.contains("declaration must be separate from assignment"));
    assert!(message.contains("missing width"));
    assert!(message.contains("Unexpected token '*', expected"));
}

#[test]
fn error_recovery_wire_no_value_no_width() {
    let message = get_errors_for(
        "wire foo;
         wire foo : * 42;"
    );
    assert!(message.contains("missing width"));
    assert!(message.contains("Unexpected token '*', expected"));
}

#[test]
fn error_recovery_assignment_width() {
    // TODO: custom error for this case?
    let message = get_errors_for(
        "foo : 42 = 0;
         foo = * 42;"
    );
    assert!(message.contains("Unexpected token ':', expected"));
    assert!(message.contains("Unexpected token '*', expected"));
}

#[test]
fn error_recovery_bitslice_expr1() {
    // TODO: custom error for this case?
    let message = get_errors_for(
        "foo = bar[quux + 1..3];
         foo = * bar;"
    );
    assert!(message.contains("Unexpected token 'quux', expected"));
    assert!(message.contains("Unexpected token '*', expected"));
}

#[test]
fn error_recovery_bitslice_expr2() {
    // TODO: custom error for this case?
    let message = get_errors_for(
        "foo = bar[1 + quux..3];
         foo = * bar;"
    );
    assert!(message.contains("Unexpected token '+', expected"));
    assert!(message.contains("Unexpected token '*', expected"));
}

#[test]
fn error_recovery_bool_wire_and_colons() {
    let message = get_errors_for(
        "bool mem_read = icode in { MRMOVQ };
         reg_srcA = [
                 icode in {RRMOVQ, CMOVXX, RMMOVQ, MRMOVQ, PUSHQ, OPQ} : opcode[8:12];
                 1 : REG_NONE;
         ];
         "
    );
    assert!(message.contains("Unexpected token 'mem_read', expected"));
    assert!(message.contains("Unexpected token ':', expected"));
}

#[test]
fn error_colons_wire_index() {
    let message = get_errors_for(
        "
         reg_srcA = [
                 icode in {RRMOVQ, CMOVXX, RMMOVQ, MRMOVQ, PUSHQ, OPQ} : opcode[8:12];
                 1 : REG_NONE;
         ];
         "
    );
    assert!(message.contains("Unexpected token ':', expected"));
}

#[test]
fn error_colons_wire_concat() {
    let message = get_errors_for(
        "
         reg_srcA = (opcode : opcode);
         "
    );
    assert!(message.contains("Unexpected token ':', expected"));
}

#[test]
fn error_colons_wire_concat2() {
    let message = get_errors_for(
        "
         reg_srcA = (opcode .. :);
         "
    );
    assert!(message.contains("Unexpected token ':', expected"));
}

#[test]
fn error_colons_register_bank() {
    let message = get_errors_for(
        "register :
         "
    );
    // FIXME: this should output a better error than it currently does
    assert!(message.contains("Unexpected token "));
}

#[test]
fn error_colons_const_name() {
    let message = get_errors_for(
        "const :
         "
    );
    assert!(message.contains("Unexpected token ':', expected"));
}

#[test]
fn error_colons_after_register_bank() {
    let message = get_errors_for(
        "register fD : 64
         "
    );
    assert!(message.contains("Unexpected token ':', expected"));
}

#[test]
fn error_colons_after_register_bank2() {
    let message = get_errors_for(
        "register fD {
            foo : 64 = 32;
        } : 64 = 42;
        "
    );
    assert!(message.contains("Unexpected token ':', expected"));
}

#[test]
fn error_colons_register_name() {
    let message = get_errors_for(
        "register fD { : 64
         "
    );
    assert!(message.contains("Unexpected token ':', expected"));
}

#[test]
fn error_wire_decl_as_assign() {
    let message = get_errors_for(
        "wire foo = 42;
         "
    );
    assert!(message.contains("declaration must be separate from assignment"));
}

#[test]
fn error_colon_in_list1() {
    let message = get_errors_for(
        "foo = bar in { FOO : QUUX }
         "
    );
    assert!(message.contains("Unexpected token ':', expected"));
}

#[test]
fn error_colon_after_in1() {
    let message = get_errors_for(
        "foo = bar in :
         "
    );
    // FIXME: error could be better
    assert!(message.contains("Unexpected token "));
}

#[test]
fn error_pipeline_register_out_set() {
    let message = get_errors_for(
        "register xY { foo : 1 = 0; }
        Y_foo = 1;
        x_foo = 0;
         "
    );
    assert!(message.contains("assigned directly here"));
}

#[test]
fn error_register_in_not_set() {
    let message = get_errors_for(
        "register xY { foo : 1 = 0; }
         "
    );
    assert!(message.contains("input to the register defined here"));
    assert!(!message.contains("fixed functionality"));
}

#[test]
fn error_built_in_set_twice() {
    let message = get_errors_for(
        "Stat = STAT_AOK; Stat = STAT_HLT; pc = 0;
         ");
    assert!(message.contains("Wire 'Stat' assigned"));
}

#[test]
fn error_register_in_set_twice() {
    let message = get_errors_for(
        "register xY { foo : 1 = 0; } x_foo = 1; x_foo = 2;
         ");
    assert!(message.contains("Wire 'x_foo' assigned"));
}

#[test]
fn error_duplicate_register_out() {
    let message = get_errors_for(
        "register xY { foo : 1 = 0; }
         register zY { foo : 1 = 0; }
         x_foo = 1; z_foo = 2;
         Stat = STAT_AOK;
         pc = 0;
         ");
    assert!(message.contains("'Y_foo'"));
}

#[test]
fn error_missing_equals_on_mux() {
    let message = get_errors_for(
        "wire foo: 32;
         foo [
            pc == 0: 1;
            1: 42;
         ];
         Stat = STAT_AOK;
         pc = 0;
         ");
    assert!(message.contains("missing '='"));
}

#[test]
fn error_wire_declared_in_register_bank() {
    let message = get_errors_for(
        "register xY {
            wire foo: 32 = 0;
         }
         Stat = STAT_AOK;
         pc = 0;
         ");
    assert!(message.contains("'wire' to declare"));
}




#[test]
fn error_mux_default() {
    let message = get_errors_for("
    wire foo : 1;
    foo = [
        pc == 42 : 100;
        pc > 42 : 99;
    ];
    Stat = 0;
    pc = 0;
    ");
    assert!(message.contains("missing required default"));
}

#[test]
fn error_mux_two_defaults() {
    let message = get_errors_for("
    wire foo : 1;
    foo = [
        REG_RSP: 100;
        1: 42;
    ];
    Stat = 0;
    pc = 0;
    ");
    assert!(message.contains("multiple conditions which are always true"));
}



#[test]
fn suggest_capitalization_constant_decl() {
    let message = get_errors_for("
        const Bar = le;
        Stat = 0;
        pc = 0;
    ");
    assert!(message.contains("Did you mean 'LE'?"));
    assert!(!message.contains("fixed"));  // message should not mention fixed functionality
}

#[test]
fn suggest_capitalization_register_default() {
    let message = get_errors_for("
        register xY {
            foo : 4 = nop;
        }
        Stat = 0;
        pc = 0;
    ");
    assert!(message.contains("Did you mean 'NOP'?"));
    assert!(!message.contains("fixed"));  // message should not mention fixed functionality
}

#[test]
fn suggest_capitalization_assignment_constant() {
    let message = get_errors_for("
        Stat = stat_aok;
        pc = 0;
    ");
    assert!(message.contains("Did you mean 'STAT_AOK'?"));
    assert!(!message.contains("fixed"));  // message should not mention fixed functionality
}

#[test]
fn suggest_capitalization_assignment_constant_to_constant() {
    let message = get_errors_for("
        const FOO = stat_aok;
        Stat = STAT_AOK;
        pc = 0;
    ");
    assert!(message.contains("Did you mean 'STAT_AOK'?"));
    assert!(!message.contains("fixed"));  // message should not mention fixed functionality
}

#[test]
fn suggest_capitalization_assignment_wire() {
    let message = get_errors_for("
        wire Foo : 4;
        Foo = 42;
        Stat = FOO;
        pc = 0;
    ");
    assert!(message.contains("Did you mean 'Foo'?"));
}

#[test]
fn usage_and_assignment_of_undeclared_gives_both_errors() {
    let message = get_errors_for("
        Foo = 42;
        Stat = STAT_AOK;
        pc = Foo;
    ");
    assert!(message.contains("assigned value"));
    assert!(message.contains("in expression"));
    assert!(!message.contains("fixed"));  // message should not mention fixed functionality
}
