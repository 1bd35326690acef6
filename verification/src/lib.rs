//! An interpreter for an educational hardware description language (HCL),
//! with the fixed functionality of the 64-bit Y86 processor.
use vstd::prelude::*;

pub mod ast;
pub mod text;
pub mod wires;
pub mod errors;
pub mod eval;
pub mod widths;
pub mod refs;
pub mod io;
pub mod lexer;
pub mod parser;
pub mod graph;
pub mod program;
pub mod memory;
pub mod running;
pub mod format;
pub mod y86_disasm;
pub mod drawing;
pub mod traverse;

use crate::errors::Error;
use crate::io::FileContents;
use crate::ast::Statement;
use crate::parser::{Token, lexed_from, statements_read_from, statements_well_formed};
use crate::program::{Program, y86_checked};

verus! {

/// The constants that every Y86-64 program can use: statuses, register numbers,
/// instruction codes and functions, `true` and `false`.
pub const Y86_PREAMBLE: &'static str = "
const STAT_BUB = 0b000, STAT_AOK = 0b001, STAT_HLT = 0b010;  # expected behavior
const STAT_ADR = 0b011, STAT_INS = 0b100, STAT_PIP = 0b110;  # error conditions

const REG_RAX = 0b0000, REG_RCX = 0b0001, REG_RDX = 0b0010, REG_RBX = 0b0011;
const REG_RSP = 0b0100, REG_RBP = 0b0101, REG_RSI = 0b0110, REG_RDI = 0b0111;
const REG_R8  = 0b1000, REG_R9  = 0b1001, REG_R10 = 0b1010, REG_R11 = 0b1011;
const REG_R12 = 0b1100, REG_R13 = 0b1101, REG_R14 = 0b1110, REG_NONE= 0b1111;

# icodes; see figure 4.2
const HALT   = 0b0000, NOP    = 0b0001, RRMOVQ = 0b0010, IRMOVQ = 0b0011;
const RMMOVQ = 0b0100, MRMOVQ = 0b0101, OPQ    = 0b0110, JXX    = 0b0111;
const CALL   = 0b1000, RET    = 0b1001, PUSHQ  = 0b1010, POPQ   = 0b1011;
const CMOVXX = RRMOVQ;

# ifuns; see figure 4.3
const ALWAYS = 0b0000, LE   = 0b0001, LT   = 0b0010, EQ   = 0b0011;
const NE     = 0b0100, GE   = 0b0101, GT   = 0b0110;
const ADDQ   = 0b0000, SUBQ = 0b0001, ANDQ = 0b0010, XORQ = 0b0011;

const true = 1;
const false = 0;
";

/// The contents of an HCL file, after the Y86-64 preamble.
pub fn y86_contents(user_data: &str, filename: &str) -> (r: FileContents)
    requires
        Y86_PREAMBLE@.len() + user_data@.len() < usize::MAX,
    ensures
        r.wf(),
        r.text() == Y86_PREAMBLE@ + user_data@,
        r.lines_table() == crate::io::spec_newlines(0, Y86_PREAMBLE@) + crate::io::spec_newlines(
            Y86_PREAMBLE@.len(),
            user_data@,
        ),
        r.files() == seq![(0nat, "<builtin>"@), (Y86_PREAMBLE@.len(), filename@)],
{
    FileContents::new_from_data(Y86_PREAMBLE, user_data, filename)
}

/// Reads the statements of the contents and checks them as a program for the Y86-64
/// processor, with the mux rules that are on by default: each mux has one option whose
/// condition is always true, as its last. Syntax errors, and the lexical error that
/// ends reading, are returned together.
pub fn parse_y86_hcl(contents: &FileContents) -> (r: Result<Program, Error>)
    ensures
        r matches Ok(p) ==> exists|sts: Seq<Statement>|
            #![trigger y86_checked(p, sts)]
            {
                &&& statements_well_formed(sts)
                &&& exists|ts: Seq<Token>|
                    #![trigger lexed_from(contents.text(), ts)]
                    lexed_from(contents.text(), ts) && statements_read_from(ts, sts)
                &&& y86_checked(p, sts)
            },
        r matches Err(e) ==> (e matches Error::MultipleErrors(es) && es@.len() > 0) || e is InvalidWireWidth
            || e is InternalParserErrorNear,
{
    let mut errors: Vec<Error> = Vec::new();
    let mut lexer = crate::lexer::Lexer::new_for_file(contents);
    let mut parser = crate::parser::Parser::new(&mut lexer);
    match parser.parse_statements(&mut errors) {
        Ok(statements) => {
            if errors.len() > 0 {
                Err(Error::MultipleErrors(errors))
            } else {
                let ghost sts = statements@;
                let r = Program::build_y86(statements, true);
                proof {
                    if r is Ok {
                        assert(y86_checked(r->Ok_0, sts));
                    }
                }
                r
            }
        },
        Err(e) => {
            errors.push(e);
            Err(Error::MultipleErrors(errors))
        },
    }
}

} // verus!
