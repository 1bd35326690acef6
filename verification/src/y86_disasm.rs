//! Names of Y86-64 registers and conditions, and disassembly of one instruction.
use vstd::prelude::*;
use crate::text::{hex_digits, push_hex, push_str};

verus! {

/// The name of register `i` of the Y86-64.
pub open spec fn register_name(i: usize) -> Seq<char> {
    if i == 0 {
        "%rax"@
    } else if i == 1 {
        "%rcx"@
    } else if i == 2 {
        "%rdx"@
    } else if i == 3 {
        "%rbx"@
    } else if i == 4 {
        "%rsp"@
    } else if i == 5 {
        "%rbp"@
    } else if i == 6 {
        "%rsi"@
    } else if i == 7 {
        "%rdi"@
    } else if i == 8 {
        "%r8"@
    } else if i == 9 {
        "%r9"@
    } else if i == 10 {
        "%r10"@
    } else if i == 11 {
        "%r11"@
    } else if i == 12 {
        "%r12"@
    } else if i == 13 {
        "%r13"@
    } else if i == 14 {
        "%r14"@
    } else if i == 15 {
        "NONE"@
    } else {
        "unknown"@
    }
}

/// The name of a register of the Y86-64, by number; 15 is "no register".
pub fn name_register(i: usize) -> (r: &'static str)
    ensures
        r@ == register_name(i),
{
    if i == 0 {
        "%rax"
    } else if i == 1 {
        "%rcx"
    } else if i == 2 {
        "%rdx"
    } else if i == 3 {
        "%rbx"
    } else if i == 4 {
        "%rsp"
    } else if i == 5 {
        "%rbp"
    } else if i == 6 {
        "%rsi"
    } else if i == 7 {
        "%rdi"
    } else if i == 8 {
        "%r8"
    } else if i == 9 {
        "%r9"
    } else if i == 10 {
        "%r10"
    } else if i == 11 {
        "%r11"
    } else if i == 12 {
        "%r12"
    } else if i == 13 {
        "%r13"
    } else if i == 14 {
        "%r14"
    } else if i == 15 {
        "NONE"
    } else {
        "unknown"
    }
}

/// The name of the condition with function code `ifun`.
pub open spec fn condition_name(ifun: u8) -> Seq<char> {
    if ifun == 0 {
        "(always)"@
    } else if ifun == 1 {
        "le"@
    } else if ifun == 2 {
        "l"@
    } else if ifun == 3 {
        "e"@
    } else if ifun == 4 {
        "ne"@
    } else if ifun == 5 {
        "ge"@
    } else if ifun == 6 {
        "g"@
    } else {
        "(unknown)"@
    }
}

/// The name of the condition of a jump or conditional move, by function code.
pub fn name_cc(ifun: u8) -> (r: &'static str)
    ensures
        r@ == condition_name(ifun),
{
    if ifun == 0 {
        "(always)"
    } else if ifun == 1 {
        "le"
    } else if ifun == 2 {
        "l"
    } else if ifun == 3 {
        "e"
    } else if ifun == 4 {
        "ne"
    } else if ifun == 5 {
        "ge"
    } else if ifun == 6 {
        "g"
    } else {
        "(unknown)"
    }
}

/// The number of bytes of an instruction with the given instruction code.
pub open spec fn instruction_length(icode: u128) -> u8 {
    if icode == 2 || icode == 6 || icode == 10 || icode == 11 {
        2
    } else if icode == 3 || icode == 4 || icode == 5 {
        10
    } else if icode == 7 || icode == 8 {
        9
    } else {
        1
    }
}

/// The mnemonic of an arithmetic instruction, by function code.
pub open spec fn opq_name(ifun: u8) -> Seq<char> {
    if ifun == 0 {
        "addq"@
    } else if ifun == 1 {
        "subq"@
    } else if ifun == 2 {
        "andq"@
    } else if ifun == 3 {
        "xorq"@
    } else {
        "<unknown OPq>"@
    }
}

/// The assembly text of the instruction whose bytes are given, least significant
/// first: the instruction code and function in the first byte, the registers in the
/// second, then a constant; addresses and constants in hexadecimal.
pub open spec fn disassembly(instruction: u128) -> Seq<char> {
    let icode = (instruction / 16) % 16;
    let ifun = (instruction % 16) as u8;
    let ra = ((instruction / 0x1000) % 16) as usize;
    let rb = ((instruction / 0x100) % 16) as usize;
    let disp = ((instruction / 0x1_0000) % 0x1_0000_0000_0000_0000) as nat;
    let dest = ((instruction / 0x100) % 0x1_0000_0000_0000_0000) as nat;
    if icode == 0 {
        "halt"@
    } else if icode == 1 {
        "nop"@
    } else if icode == 2 {
        (if ifun == 0 {
            "rrmovq "@
        } else {
            "cmov"@ + condition_name(ifun) + " "@
        }) + register_name(ra) + ", "@ + register_name(rb)
    } else if icode == 3 {
        "irmovq $0x"@ + hex_digits(disp) + ", "@ + register_name(rb)
    } else if icode == 4 {
        "rmmovq "@ + register_name(ra) + ", 0x"@ + hex_digits(disp) + "("@ + register_name(rb) + ")"@
    } else if icode == 5 {
        "mrmovq 0x"@ + hex_digits(disp) + "("@ + register_name(rb) + "), "@ + register_name(ra)
    } else if icode == 6 {
        opq_name(ifun) + " "@ + register_name(ra) + ", "@ + register_name(rb)
    } else if icode == 7 {
        (if ifun == 0 {
            "jmp 0x"@
        } else {
            "j"@ + condition_name(ifun) + " 0x"@
        }) + hex_digits(dest)
    } else if icode == 8 {
        "call 0x"@ + hex_digits(dest)
    } else if icode == 9 {
        "ret"@
    } else if icode == 10 {
        "pushq "@ + register_name(ra)
    } else if icode == 11 {
        "popq "@ + register_name(ra)
    } else {
        "<invalid>"@
    }
}

/// The assembly text of the instruction whose bytes are given, least significant
/// first, and the number of its bytes.
pub fn disassemble_to_string(instruction: u128) -> (r: (u8, String))
    ensures
        r.0 == instruction_length((instruction / 16) % 16),
        r.1@ == disassembly(instruction),
{
    let icode = (instruction / 16) % 16;
    let ifun = (instruction % 16) as u8;
    let ra = ((instruction / 0x1000) % 16) as usize;
    let rb = ((instruction / 0x100) % 16) as usize;
    let disp = (instruction / 0x1_0000) % 0x1_0000_0000_0000_0000;
    let dest = (instruction / 0x100) % 0x1_0000_0000_0000_0000;
    let mut s = String::new();
    let used: u8 = if icode == 0 {
        push_str(&mut s, "halt");
        1
    } else if icode == 1 {
        push_str(&mut s, "nop");
        1
    } else if icode == 2 {
        if ifun == 0 {
            push_str(&mut s, "rrmovq ");
        } else {
            push_str(&mut s, "cmov");
            push_str(&mut s, name_cc(ifun));
            push_str(&mut s, " ");
        }
        push_str(&mut s, name_register(ra));
        push_str(&mut s, ", ");
        push_str(&mut s, name_register(rb));
        2
    } else if icode == 3 {
        push_str(&mut s, "irmovq $0x");
        push_hex(&mut s, disp);
        push_str(&mut s, ", ");
        push_str(&mut s, name_register(rb));
        10
    } else if icode == 4 {
        push_str(&mut s, "rmmovq ");
        push_str(&mut s, name_register(ra));
        push_str(&mut s, ", 0x");
        push_hex(&mut s, disp);
        push_str(&mut s, "(");
        push_str(&mut s, name_register(rb));
        push_str(&mut s, ")");
        10
    } else if icode == 5 {
        push_str(&mut s, "mrmovq 0x");
        push_hex(&mut s, disp);
        push_str(&mut s, "(");
        push_str(&mut s, name_register(rb));
        push_str(&mut s, "), ");
        push_str(&mut s, name_register(ra));
        10
    } else if icode == 6 {
        let mnemonic = if ifun == 0 {
            "addq"
        } else if ifun == 1 {
            "subq"
        } else if ifun == 2 {
            "andq"
        } else if ifun == 3 {
            "xorq"
        } else {
            "<unknown OPq>"
        };
        push_str(&mut s, mnemonic);
        push_str(&mut s, " ");
        push_str(&mut s, name_register(ra));
        push_str(&mut s, ", ");
        push_str(&mut s, name_register(rb));
        2
    } else if icode == 7 {
        if ifun == 0 {
            push_str(&mut s, "jmp 0x");
        } else {
            push_str(&mut s, "j");
            push_str(&mut s, name_cc(ifun));
            push_str(&mut s, " 0x");
        }
        push_hex(&mut s, dest);
        9
    } else if icode == 8 {
        push_str(&mut s, "call 0x");
        push_hex(&mut s, dest);
        9
    } else if icode == 9 {
        push_str(&mut s, "ret");
        1
    } else if icode == 10 {
        push_str(&mut s, "pushq ");
        push_str(&mut s, name_register(ra));
        2
    } else if icode == 11 {
        push_str(&mut s, "popq ");
        push_str(&mut s, name_register(ra));
        2
    } else {
        push_str(&mut s, "<invalid>");
        1
    };
    (used, s)
}

/// Writes the assembly text of an instruction to `out`; gives its number of bytes.
pub fn disassemble(out: &mut Vec<u8>, instruction: u128) -> (r: u8)
    ensures
        r == instruction_length((instruction / 16) % 16),
        final(out)@ == old(out)@ + crate::text::utf8(disassembly(instruction)),
{
    let (used, text) = disassemble_to_string(instruction);
    crate::text::append_utf8(out, text.as_str());
    used
}

} // verus!
