//! Running a checked program cycle by cycle, with the register file and memory of
//! the Y86-64 processor, and printing its state.
use vstd::prelude::*;
use crate::ast::{WireValue, WireWidth};
use crate::errors::Error;
use crate::eval::{spec_eval, values_valid};
use crate::io::spec_lines;
use crate::memory::{Memory, YoLine, byte_of, memory_dump, offset, yo_line, yo_load};
use crate::program::{Action, Program, RegisterBank, contains_name, initial_trace};
use crate::text::{
    append_utf8, dec_digits, hex_digits, pad_left, push_dec, push_dec_right_aligned, push_hex_padded,
    push_hex_right_aligned, push_repeat, push_str, repeat_char, zero_pad,
};
use crate::refs::names_of;
use crate::wires::{NameMap, WireValues, wire_set};

verus! {

/// How a program is run: its timeout in cycles, and what is printed.
#[derive(Debug)]
pub struct RunOptions {
    timeout: u32,
    quiet: bool,
    debug: bool,
    test: bool,
    prompt: bool,
    group_wire_values: bool,
    trace_assignments: bool,
}

/// The options of a run, as plain values.
pub struct OptionsView {
    pub timeout: u32,
    pub quiet: bool,
    pub debug: bool,
    pub test: bool,
    pub prompt: bool,
    pub group_wire_values: bool,
    pub trace_assignments: bool,
}

impl View for RunOptions {
    type V = OptionsView;

    closed spec fn view(&self) -> OptionsView {
        OptionsView {
            timeout: self.timeout,
            quiet: self.quiet,
            debug: self.debug,
            test: self.test,
            prompt: self.prompt,
            group_wire_values: self.group_wire_values,
            trace_assignments: self.trace_assignments,
        }
    }
}

impl Default for RunOptions {
    /// A timeout of 1000 cycles; the state is printed before each cycle, with the
    /// wire values grouped by kind when they are printed.
    fn default() -> (r: RunOptions)
        ensures
            r@ == (OptionsView {
                timeout: 1000,
                quiet: false,
                debug: false,
                test: false,
                prompt: false,
                group_wire_values: true,
                trace_assignments: false,
            }),
    {
        RunOptions {
            timeout: 1000,
            quiet: false,
            debug: false,
            test: false,
            prompt: false,
            group_wire_values: true,
            trace_assignments: false,
        }
    }
}

impl RunOptions {
    pub open spec fn spec_timeout(self) -> u32 {
        self@.timeout
    }

    pub fn set_timeout(&mut self, timeout: u32)
        ensures
            final(self)@ == (OptionsView { timeout, ..old(self)@ }),
    {
        self.timeout = timeout;
    }

    /// Print only the state at the end.
    pub fn set_quiet(&mut self)
        ensures
            final(self)@ == (OptionsView { quiet: true, ..old(self)@ }),
    {
        self.quiet = true;
    }

    /// Print the values of the wires during each cycle.
    pub fn set_debug(&mut self)
        ensures
            final(self)@ == (OptionsView { debug: true, ..old(self)@ }),
    {
        self.debug = true;
    }

    /// Leave the register banks out of the printed state.
    pub fn set_test(&mut self)
        ensures
            final(self)@ == (OptionsView { test: true, ..old(self)@ }),
    {
        self.test = true;
    }

    /// Wait for the user after each cycle (the caller does the waiting).
    pub fn set_prompt(&mut self)
        ensures
            final(self)@ == (OptionsView { prompt: true, ..old(self)@ }),
    {
        self.prompt = true;
    }

    /// Print the values of the wires in one list rather than by kind.
    pub fn set_no_group_wire_values(&mut self)
        ensures
            final(self)@ == (OptionsView { group_wire_values: false, ..old(self)@ }),
    {
        self.group_wire_values = false;
    }

    /// Print each assignment as it is carried out.
    pub fn set_trace_assignments(&mut self)
        ensures
            final(self)@ == (OptionsView { trace_assignments: true, ..old(self)@ }),
    {
        self.trace_assignments = true;
    }

    pub fn timeout(&self) -> (r: u32)
        ensures
            r == self@.timeout,
    {
        self.timeout
    }

    pub fn quiet(&self) -> (r: bool)
        ensures
            r == self@.quiet,
    {
        self.quiet
    }

    pub fn debug(&self) -> (r: bool)
        ensures
            r == self@.debug,
    {
        self.debug
    }

    pub fn prompt(&self) -> (r: bool)
        ensures
            r == self@.prompt,
    {
        self.prompt
    }
}

/// The name of a status of the Y86-64 processor.
pub open spec fn status_name(status: u8) -> Seq<char> {
    if status == 0 {
        "0 (Bubble)"@
    } else if status == 1 {
        "1 (OK)"@
    } else if status == 2 {
        "2 (Halt)"@
    } else if status == 3 {
        "3 (Invalid Address)"@
    } else if status == 4 {
        "4 (Invalid Instruction)"@
    } else if status == 5 {
        "5 (Pipeline Error)"@
    } else {
        "<unknown>"@
    }
}

/// The names of the statuses of the Y86-64 processor.
pub fn y86_status_name(status: u8) -> (r: &'static str)
    ensures
        r@ == status_name(status),
{
    if status == 0 {
        "0 (Bubble)"
    } else if status == 1 {
        "1 (OK)"
    } else if status == 2 {
        "2 (Halt)"
    } else if status == 3 {
        "3 (Invalid Address)"
    } else if status == 4 {
        "4 (Invalid Instruction)"
    } else if status == 5 {
        "5 (Pipeline Error)"
    } else {
        "<unknown>"
    }
}

/// The name of each status 0 to 5 begins with the status's number in decimal, then
/// ` (`; the others have no number.
pub proof fn law_status_names(status: u8)
    ensures
        status <= 5 ==> status_name(status).subrange(0, 3) == crate::text::dec_digits(status as nat) + seq![' ', '('],
        status > 5 ==> status_name(status) == "<unknown>"@,
{
    reveal_strlit("0 (Bubble)");
    reveal_strlit("1 (OK)");
    reveal_strlit("2 (Halt)");
    reveal_strlit("3 (Invalid Address)");
    reveal_strlit("4 (Invalid Instruction)");
    reveal_strlit("5 (Pipeline Error)");
    if status <= 5 {
        assert(crate::text::dec_digits(status as nat) == seq![crate::text::digit_char(status as nat)]);
        assert(status_name(status).subrange(0, 3) =~= crate::text::dec_digits(status as nat) + seq![' ', '(']);
    }
}

/// A register of the register file, or zero past its end.
pub open spec fn register_at(regs: Seq<u64>, i: int) -> u64 {
    if 0 <= i < regs.len() {
        regs[i]
    } else {
        0
    }
}

/// A register after its label, in hexadecimal right-aligned in 16 places.
pub open spec fn register_field(label: Seq<char>, regs: Seq<u64>, i: int) -> Seq<char> {
    label + pad_left(hex_digits(register_at(regs, i) as nat), 16)
}

/// The register file, three registers to a line.
pub open spec fn registers_text(regs: Seq<u64>) -> Seq<char> {
    register_field("| RAX: "@, regs, 0) + register_field("   RCX: "@, regs, 1) + register_field("   RDX: "@, regs, 2)
        + " |\n"@ + register_field("| RBX: "@, regs, 3) + register_field("   RSP: "@, regs, 4) + register_field(
        "   RBP: "@,
        regs,
        5,
    ) + " |\n"@ + register_field("| RSI: "@, regs, 6) + register_field("   RDI: "@, regs, 7) + register_field(
        "   R8:  "@,
        regs,
        8,
    ) + " |\n"@ + register_field("| R9:  "@, regs, 9) + register_field("   R10: "@, regs, 10) + register_field(
        "   R11: "@,
        regs,
        11,
    ) + " |\n"@ + register_field("| R12: "@, regs, 12) + register_field("   R13: "@, regs, 13) + register_field(
        "   R14: "@,
        regs,
        14,
    ) + " |\n"@
}

/// A letter in upper case; any other character as it is.
pub open spec fn upper_case(c: char) -> char {
    if 'a' <= c && c <= 'z' {
        ((c as u32) - 32) as char
    } else {
        c
    }
}

/// The label of a register in the state display: its assembly name (see
/// `register_name`) without `%`, in upper case, then `:`, padded to five places.
pub open spec fn register_label(n: usize) -> Seq<char> {
    let core = crate::y86_disasm::register_name(n).drop_first().map_values(|c: char| upper_case(c));
    core + seq![':'] + Seq::new((4 - core.len()) as nat, |i: int| ' ')
}

/// Register `n` shown under its own label: the label, then its value in hexadecimal
/// right-aligned in 16 places.
pub open spec fn labelled_register(regs: Seq<u64>, n: usize) -> Seq<char> {
    register_label(n) + pad_left(hex_digits(register_at(regs, n as int) as nat), 16)
}

/// Row `k` of the register display: registers `3k`, `3k+1` and `3k+2`, each under its
/// own label.
pub open spec fn register_row(regs: Seq<u64>, k: usize) -> Seq<char> {
    "| "@ + labelled_register(regs, (3 * k) as usize) + "   "@ + labelled_register(regs, (3 * k + 1) as usize)
        + "   "@ + labelled_register(regs, (3 * k + 2) as usize) + " |\n"@
}

proof fn lemma_label(lit: Seq<char>, bar: Seq<char>, n: usize)
    requires
        lit == bar + register_label(n),
    ensures
        forall|regs: Seq<u64>| #[trigger] register_field(lit, regs, n as int) == bar + labelled_register(regs, n),
{
    assert forall|regs: Seq<u64>| #[trigger] register_field(lit, regs, n as int) == bar + labelled_register(regs, n) by {
        assert(register_field(lit, regs, n as int) =~= bar + labelled_register(regs, n));
    }
}

proof fn lemma_row_labels_0()
    ensures
        forall|regs: Seq<u64>| #[trigger] register_field("| RAX: "@, regs, 0) == "| "@ + labelled_register(regs, 0),
        forall|regs: Seq<u64>| #[trigger] register_field("   RCX: "@, regs, 1) == "   "@ + labelled_register(regs, 1),
        forall|regs: Seq<u64>| #[trigger] register_field("   RDX: "@, regs, 2) == "   "@ + labelled_register(regs, 2),
{
    reveal_strlit("| RAX: ");
    reveal_strlit("%rax");
    reveal_strlit("| ");
    assert("| RAX: "@ =~= "| "@ + register_label(0));
    lemma_label("| RAX: "@, "| "@, 0);
    reveal_strlit("   RCX: ");
    reveal_strlit("%rcx");
    reveal_strlit("   ");
    assert("   RCX: "@ =~= "   "@ + register_label(1));
    lemma_label("   RCX: "@, "   "@, 1);
    reveal_strlit("   RDX: ");
    reveal_strlit("%rdx");
    reveal_strlit("   ");
    assert("   RDX: "@ =~= "   "@ + register_label(2));
    lemma_label("   RDX: "@, "   "@, 2);
}

proof fn lemma_row_labels_1()
    ensures
        forall|regs: Seq<u64>| #[trigger] register_field("| RBX: "@, regs, 3) == "| "@ + labelled_register(regs, 3),
        forall|regs: Seq<u64>| #[trigger] register_field("   RSP: "@, regs, 4) == "   "@ + labelled_register(regs, 4),
        forall|regs: Seq<u64>| #[trigger] register_field("   RBP: "@, regs, 5) == "   "@ + labelled_register(regs, 5),
{
    reveal_strlit("| RBX: ");
    reveal_strlit("%rbx");
    reveal_strlit("| ");
    assert("| RBX: "@ =~= "| "@ + register_label(3));
    lemma_label("| RBX: "@, "| "@, 3);
    reveal_strlit("   RSP: ");
    reveal_strlit("%rsp");
    reveal_strlit("   ");
    assert("   RSP: "@ =~= "   "@ + register_label(4));
    lemma_label("   RSP: "@, "   "@, 4);
    reveal_strlit("   RBP: ");
    reveal_strlit("%rbp");
    reveal_strlit("   ");
    assert("   RBP: "@ =~= "   "@ + register_label(5));
    lemma_label("   RBP: "@, "   "@, 5);
}

proof fn lemma_row_labels_2()
    ensures
        forall|regs: Seq<u64>| #[trigger] register_field("| RSI: "@, regs, 6) == "| "@ + labelled_register(regs, 6),
        forall|regs: Seq<u64>| #[trigger] register_field("   RDI: "@, regs, 7) == "   "@ + labelled_register(regs, 7),
        forall|regs: Seq<u64>| #[trigger] register_field("   R8:  "@, regs, 8) == "   "@ + labelled_register(regs, 8),
{
    reveal_strlit("| RSI: ");
    reveal_strlit("%rsi");
    reveal_strlit("| ");
    assert("| RSI: "@ =~= "| "@ + register_label(6));
    lemma_label("| RSI: "@, "| "@, 6);
    reveal_strlit("   RDI: ");
    reveal_strlit("%rdi");
    reveal_strlit("   ");
    assert("   RDI: "@ =~= "   "@ + register_label(7));
    lemma_label("   RDI: "@, "   "@, 7);
    reveal_strlit("   R8:  ");
    reveal_strlit("%r8");
    reveal_strlit("   ");
    assert("   R8:  "@ =~= "   "@ + register_label(8));
    lemma_label("   R8:  "@, "   "@, 8);
}

proof fn lemma_row_labels_3()
    ensures
        forall|regs: Seq<u64>| #[trigger] register_field("| R9:  "@, regs, 9) == "| "@ + labelled_register(regs, 9),
        forall|regs: Seq<u64>| #[trigger] register_field("   R10: "@, regs, 10) == "   "@ + labelled_register(regs, 10),
        forall|regs: Seq<u64>| #[trigger] register_field("   R11: "@, regs, 11) == "   "@ + labelled_register(regs, 11),
{
    reveal_strlit("| R9:  ");
    reveal_strlit("%r9");
    reveal_strlit("| ");
    assert("| R9:  "@ =~= "| "@ + register_label(9));
    lemma_label("| R9:  "@, "| "@, 9);
    reveal_strlit("   R10: ");
    reveal_strlit("%r10");
    reveal_strlit("   ");
    assert("   R10: "@ =~= "   "@ + register_label(10));
    lemma_label("   R10: "@, "   "@, 10);
    reveal_strlit("   R11: ");
    reveal_strlit("%r11");
    reveal_strlit("   ");
    assert("   R11: "@ =~= "   "@ + register_label(11));
    lemma_label("   R11: "@, "   "@, 11);
}

proof fn lemma_row_labels_4()
    ensures
        forall|regs: Seq<u64>| #[trigger] register_field("| R12: "@, regs, 12) == "| "@ + labelled_register(regs, 12),
        forall|regs: Seq<u64>| #[trigger] register_field("   R13: "@, regs, 13) == "   "@ + labelled_register(regs, 13),
        forall|regs: Seq<u64>| #[trigger] register_field("   R14: "@, regs, 14) == "   "@ + labelled_register(regs, 14),
{
    reveal_strlit("| R12: ");
    reveal_strlit("%r12");
    reveal_strlit("| ");
    assert("| R12: "@ =~= "| "@ + register_label(12));
    lemma_label("| R12: "@, "| "@, 12);
    reveal_strlit("   R13: ");
    reveal_strlit("%r13");
    reveal_strlit("   ");
    assert("   R13: "@ =~= "   "@ + register_label(13));
    lemma_label("   R13: "@, "   "@, 13);
    reveal_strlit("   R14: ");
    reveal_strlit("%r14");
    reveal_strlit("   ");
    assert("   R14: "@ =~= "   "@ + register_label(14));
    lemma_label("   R14: "@, "   "@, 14);
}

proof fn lemma_row_shape(bar1: Seq<char>, bar2: Seq<char>, nl: Seq<char>, a: Seq<char>, b: Seq<char>, c: Seq<char>)
    ensures
        (bar1 + a) + (bar2 + b) + (bar2 + c) + nl == bar1 + a + bar2 + b + bar2 + c + nl,
{
    assert((bar1 + a) + (bar2 + b) + (bar2 + c) + nl =~= bar1 + a + bar2 + b + bar2 + c + nl);
}

proof fn lemma_rows_shape(
    f0: Seq<char>,
    f1: Seq<char>,
    f2: Seq<char>,
    f3: Seq<char>,
    f4: Seq<char>,
    f5: Seq<char>,
    f6: Seq<char>,
    f7: Seq<char>,
    f8: Seq<char>,
    f9: Seq<char>,
    f10: Seq<char>,
    f11: Seq<char>,
    f12: Seq<char>,
    f13: Seq<char>,
    f14: Seq<char>,
    nl: Seq<char>,
)
    ensures
        f0 + f1 + f2 + nl + f3 + f4 + f5 + nl + f6 + f7 + f8 + nl + f9 + f10 + f11 + nl + f12 + f13 + f14 + nl == (f0
            + f1 + f2 + nl) + (f3 + f4 + f5 + nl) + (f6 + f7 + f8 + nl) + (f9 + f10 + f11 + nl) + (f12 + f13 + f14 + nl),
{
    assert(f0 + f1 + f2 + nl + f3 + f4 + f5 + nl + f6 + f7 + f8 + nl + f9 + f10 + f11 + nl + f12 + f13 + f14 + nl =~= (f0
        + f1 + f2 + nl) + (f3 + f4 + f5 + nl) + (f6 + f7 + f8 + nl) + (f9 + f10 + f11 + nl) + (f12 + f13 + f14 + nl));
}

/// The register display shows, in five rows of three, each register `n` of the file
/// (0 to 14) right after the label of register `n`: the field after `R8` is register
/// 8, the one after `RAX` register 0.
#[verifier::rlimit(50)]
pub proof fn law_registers_display(regs: Seq<u64>)
    ensures
        registers_text(regs) == register_row(regs, 0) + register_row(regs, 1) + register_row(regs, 2) + register_row(
            regs,
            3,
        ) + register_row(regs, 4),
{
    lemma_row_labels_0();
    lemma_row_labels_1();
    lemma_row_labels_2();
    lemma_row_labels_3();
    lemma_row_labels_4();
    let nl = " |\n"@;
    let f0 = register_field("| RAX: "@, regs, 0);
    let f1 = register_field("   RCX: "@, regs, 1);
    let f2 = register_field("   RDX: "@, regs, 2);
    lemma_row_shape("| "@, "   "@, nl, labelled_register(regs, 0), labelled_register(regs, 1), labelled_register(regs, 2));
    assert(f0 + f1 + f2 + nl == register_row(regs, 0));
    let f3 = register_field("| RBX: "@, regs, 3);
    let f4 = register_field("   RSP: "@, regs, 4);
    let f5 = register_field("   RBP: "@, regs, 5);
    lemma_row_shape("| "@, "   "@, nl, labelled_register(regs, 3), labelled_register(regs, 4), labelled_register(regs, 5));
    assert(f3 + f4 + f5 + nl == register_row(regs, 1));
    let f6 = register_field("| RSI: "@, regs, 6);
    let f7 = register_field("   RDI: "@, regs, 7);
    let f8 = register_field("   R8:  "@, regs, 8);
    lemma_row_shape("| "@, "   "@, nl, labelled_register(regs, 6), labelled_register(regs, 7), labelled_register(regs, 8));
    assert(f6 + f7 + f8 + nl == register_row(regs, 2));
    let f9 = register_field("| R9:  "@, regs, 9);
    let f10 = register_field("   R10: "@, regs, 10);
    let f11 = register_field("   R11: "@, regs, 11);
    lemma_row_shape("| "@, "   "@, nl, labelled_register(regs, 9), labelled_register(regs, 10), labelled_register(regs, 11));
    assert(f9 + f10 + f11 + nl == register_row(regs, 3));
    let f12 = register_field("| R12: "@, regs, 12);
    let f13 = register_field("   R13: "@, regs, 13);
    let f14 = register_field("   R14: "@, regs, 14);
    lemma_row_shape("| "@, "   "@, nl, labelled_register(regs, 12), labelled_register(regs, 13), labelled_register(regs, 14));
    assert(f12 + f13 + f14 + nl == register_row(regs, 4));
    lemma_rows_shape(f0, f1, f2, f3, f4, f5, f6, f7, f8, f9, f10, f11, f12, f13, f14, nl);
}

/// The column at which the lines of the state display end.
pub open spec fn line_end() -> nat {
    71
}

/// Spaces from column `loc` up to column `end`.
pub open spec fn pad_to_text(loc: nat, end: nat) -> Seq<char> {
    if loc < end {
        repeat_char(' ', (end - loc) as nat)
    } else {
        Seq::empty()
    }
}

/// The name shown for a register: its input name without the prefix of two letters.
pub open spec fn shown_register_name(input: Seq<char>) -> Seq<char> {
    if input.len() >= 2 {
        input.skip(2)
    } else {
        Seq::empty()
    }
}

/// The number of hexadecimal digits shown for a value of the width.
pub open spec fn hex_places(w: WireWidth) -> nat {
    (w.spec_bits_or_128() as nat + 3) / 4
}

/// A register's field starts a new line when it would reach the end of the line.
pub open spec fn field_wraps(sig: (String, String, WireWidth), loc: nat) -> bool {
    loc + 2 + hex_places(sig.2) + shown_register_name(sig.0@).len() >= line_end()
}

/// A register's field after column `loc`: its name and its value in as many
/// hexadecimal digits as its width needs, on a new line if it would reach the end.
pub open spec fn field_text(values: WireValues, sig: (String, String, WireWidth), loc: nat) -> Seq<char> {
    (if field_wraps(sig, loc) {
        pad_to_text(loc, line_end()) + " |\n| "@
    } else {
        Seq::empty()
    }) + " "@ + shown_register_name(sig.0@) + "="@ + zero_pad(hex_digits(bits_of(values, sig.1@) as nat), hex_places(sig.2))
}

/// The column after a register's field.
pub open spec fn field_end(sig: (String, String, WireWidth), loc: nat) -> nat {
    (if field_wraps(sig, loc) {
        2
    } else {
        loc
    }) + 2 + hex_places(sig.2) + shown_register_name(sig.0@).len()
}

/// The fields of the first `n` registers of a bank, and the column after them.
pub open spec fn bank_fields(values: WireValues, sigs: Seq<(String, String, WireWidth)>, n: nat) -> (Seq<char>, nat)
    decreases n,
{
    if n == 0 || n > sigs.len() {
        (Seq::empty(), 18)
    } else {
        let (t, loc) = bank_fields(values, sigs, (n - 1) as nat);
        (t + field_text(values, sigs[n - 1], loc), field_end(sigs[n - 1], loc))
    }
}

/// Whether a bank is bubbled (B), stalled (S) or neither (N).
pub open spec fn bank_status(values: WireValues, bank: RegisterBank) -> Seq<char> {
    if is_set(values, bank.bubble_signal@) {
        "B"@
    } else if is_set(values, bank.stall_signal@) {
        "S"@
    } else {
        "N"@
    }
}

/// A register bank: its name and status, then its registers with their values, in
/// lines as wide as the state display.
pub open spec fn bank_text(values: WireValues, bank: RegisterBank) -> Seq<char> {
    let (fields, loc) = bank_fields(values, bank.signals@, bank.signals@.len());
    let wrap = loc + 2 >= line_end();
    let loc1: nat = if wrap {
        2
    } else {
        loc
    };
    "| register "@ + bank.label@ + "("@ + bank_status(values, bank) + ") {"@ + fields + (if wrap {
        pad_to_text(loc, line_end()) + " |\n| "@
    } else {
        Seq::empty()
    }) + " }"@ + pad_to_text(loc1 + 2, line_end()) + " |\n"@
}

/// The letter of a bank: the last character of its stall signal's name.
pub open spec fn bank_letter(b: RegisterBank) -> char {
    if b.stall_signal@.len() > 0 {
        b.stall_signal@.last()
    } else {
        ' '
    }
}

/// The letters of the stages of the Y86-64 pipeline.
pub open spec fn pipeline_letter(c: char) -> bool {
    c == 'P' || c == 'F' || c == 'D' || c == 'E' || c == 'M' || c == 'W'
}

/// The last bank whose letter has the code.
pub open spec fn is_last_with_code(banks: Seq<RegisterBank>, code: nat, i: int) -> bool {
    &&& 0 <= i < banks.len()
    &&& bank_letter(banks[i]) as nat == code
    &&& forall|j: int| i < j < banks.len() ==> bank_letter(#[trigger] banks[j]) as nat != code
}

/// The bank shown for a letter: the last with that letter, if there is one.
pub open spec fn letter_bank_text(values: WireValues, banks: Seq<RegisterBank>, code: nat) -> Seq<char> {
    if exists|i: int| is_last_with_code(banks, code, i) {
        bank_text(values, banks[choose|i: int| is_last_with_code(banks, code, i)])
    } else {
        Seq::empty()
    }
}

/// A bank has a letter with the code, other than those of the pipeline.
pub open spec fn other_letter_code(banks: Seq<RegisterBank>, code: nat) -> bool {
    exists|i: int| 0 <= i < banks.len() && bank_letter(#[trigger] banks[i]) as nat == code && !pipeline_letter(bank_letter(banks[i]))
}

/// The banks of letters other than those of the pipeline whose codes lie from `lo`
/// up to `hi`, by code.
pub open spec fn other_banks_text(values: WireValues, banks: Seq<RegisterBank>, lo: nat, hi: nat) -> Seq<char>
    decreases hi,
{
    if hi <= lo {
        Seq::empty()
    } else {
        other_banks_text(values, banks, lo, (hi - 1) as nat) + if other_letter_code(banks, (hi - 1) as nat) {
            letter_bank_text(values, banks, (hi - 1) as nat)
        } else {
            Seq::empty()
        }
    }
}

/// The register banks: first those of the letters P, F, D, E, M and W, in that
/// order, then the others by letter; for a letter that several banks have, the last.
pub open spec fn banks_text(values: WireValues, banks: Seq<RegisterBank>) -> Seq<char> {
    letter_bank_text(values, banks, 'P' as nat) + letter_bank_text(values, banks, 'F' as nat) + letter_bank_text(
        values,
        banks,
        'D' as nat,
    ) + letter_bank_text(values, banks, 'E' as nat) + letter_bank_text(values, banks, 'M' as nat) + letter_bank_text(
        values,
        banks,
        'W' as nat,
    ) + other_banks_text(values, banks, 0, 0x110000)
}

/// Codes at which no bank has a letter add nothing.
proof fn lemma_no_other_letters(values: WireValues, banks: Seq<RegisterBank>, lo: nat, mid: nat, hi: nat)
    requires
        lo <= mid <= hi,
        forall|c: nat| mid <= c < hi ==> !other_letter_code(banks, c),
    ensures
        other_banks_text(values, banks, lo, hi) == other_banks_text(values, banks, lo, mid),
    decreases hi,
{
    if hi > mid {
        assert(!other_letter_code(banks, (hi - 1) as nat));
        lemma_no_other_letters(values, banks, lo, mid, (hi - 1) as nat);
    }
}

/// The first line of the state display.
pub open spec fn state_header(status: u8, cycle: u32, timeout: u32) -> Seq<char> {
    if status == 2 {
        "+----------------------- halted in state: ------------------------------+\n"@
    } else if status != 0 && status != 1 {
        "+------------------- error caused in state: ----------------------------+\n"@
    } else if cycle >= timeout {
        "+------------ timed out after "@ + pad_left(dec_digits(cycle as nat), 5)
            + " cycles in state: -------------------+\n"@
    } else {
        "+------------------- between cycles "@ + pad_left(dec_digits(cycle as nat), 4) + " and "@ + pad_left(
            dec_digits(cycle as nat + 1),
            4,
        ) + " ----------------------+\n"@
    }
}

/// The last lines of the state display: the closing line, and, when the program is
/// done, the number of cycles run and the error, if any.
pub open spec fn state_footer(status: u8, cycle: u32, timeout: u32, error_name: Seq<char>) -> Seq<char> {
    let halted = status == 2;
    let error = status != 0 && status != 1 && status != 2;
    let timed_out = cycle >= timeout;
    let done = (status != 1 && status != 0) || timed_out;
    (if halted {
        "+--------------------- (end of halted state) ---------------------------+\n"@
    } else if error {
        "+-------------------- (end of error state) -----------------------------+\n"@
    } else {
        "+-----------------------------------------------------------------------+\n"@
    }) + if done {
        "Cycles run: "@ + dec_digits(cycle as nat) + "\n"@ + if !halted && !timed_out {
            "Error code: "@ + error_name + "\n"@
        } else {
            Seq::empty()
        }
    } else {
        Seq::empty()
    }
}

/// A cycle of the program leads from state `s` to state `t`: the actions in order,
/// then the register banks.
pub open spec fn cycle_step(p: Program, zero: nat, s: CycleState, t: CycleState) -> bool {
    exists|m: CycleState|
        #[trigger] actions_effect(s, p.spec_actions(), zero, m) && banks_effect(m.values, p.spec_banks(), t.values)
            && t.memory == m.memory && t.registers == m.registers && t.status == m.status
}

/// The cycle of the program from state `s` fails with the error: an assignment whose
/// expression cannot be evaluated in the state that the actions before it give.
pub open spec fn cycle_fails(p: Program, zero: nat, s: CycleState, e: Error) -> bool {
    exists|k: int, m: CycleState|
        0 <= k < p.spec_actions().len() && #[trigger] actions_effect(s, p.spec_actions().take(k), zero, m) && (
        p.spec_actions()[k] matches Action::Assign(_, ex, _) && spec_eval(ex, m.values@, m.values.keys()) matches Err(
            f,
        ) && e.reports(f))
}

/// Each state follows from the one before by a cycle of the program.
pub open spec fn cycles(p: Program, zero: nat, states: Seq<CycleState>) -> bool {
    forall|i: int| 0 <= i < states.len() - 1 ==> cycle_step(p, zero, states[i], #[trigger] states[i + 1])
}

/// The input or output wire of a register has the name.
pub open spec fn register_signal_named(sig: (String, String, WireWidth), name: Seq<char>) -> bool {
    sig.0@ == name || sig.1@ == name
}

/// The name is the bank's stall or bubble signal.
pub open spec fn control_signal_of(bank: RegisterBank, name: Seq<char>) -> bool {
    bank.stall_signal@ == name || bank.bubble_signal@ == name
}

/// A program being run: the cycle, the values of the wires, the memory and the
/// register file.
#[derive(Debug)]
pub struct RunningProgram {
    program: Program,
    cycle: u32,
    values: WireValues,
    memory: Memory,
    registers: Vec<u64>,
    zero_register: usize,
    last_status: Option<u8>,
    options: RunOptions,
}

/// The low 64 bits of a value.
fn low64(v: u128) -> (r: u64)
    ensures
        r == v % 0x1_0000_0000_0000_0000,
{
    (v % 0x1_0000_0000_0000_0000) as u64
}

/// A 64-bit value on a 64-bit wire.
fn value64(x: u64) -> (r: WireValue)
    ensures
        r == (WireValue { bits: x as u128, width: WireWidth::Bits(64) }),
        r.valid(),
{
    proof {
        vstd::arithmetic::power2::lemma2_to64();
        crate::ast::lemma_fits_low_mask(x as u128, 64);
    }
    WireValue { bits: x as u128, width: WireWidth::Bits(64) }
}

/// What the actions of a cycle work on: the values of the wires, the memory, the
/// register file and the last status.
pub struct CycleState {
    pub values: WireValues,
    pub memory: Memory,
    pub registers: Seq<u64>,
    pub status: Option<u8>,
}

/// The bits of a wire's value, or zero if it has none.
pub open spec fn bits_of(w: WireValues, name: Seq<char>) -> u128 {
    if w@.dom().contains(name) {
        w@[name].bits
    } else {
        0
    }
}

/// The wire has a value, and it is not zero.
pub open spec fn is_set(w: WireValues, name: Seq<char>) -> bool {
    w@.dom().contains(name) && w@[name].bits > 0
}

/// The low 64 bits of a value.
pub open spec fn low_bits64(v: u128) -> u64 {
    (v % 0x1_0000_0000_0000_0000) as u64
}

/// The value that a memory read by an action gives: `bytes` bytes from the address
/// on if the read is enabled, else zero, with 8 bits per byte.
pub open spec fn memory_read_value(s: CycleState, is_read: Option<String>, address: String, bytes: u8) -> WireValue {
    let enabled = match is_read {
        None => true,
        Some(bit) => is_set(s.values, bit@),
    };
    if enabled {
        WireValue {
            bits: s.memory.read_value(low_bits64(bits_of(s.values, address@)), bytes as nat) as u128,
            width: WireWidth::Bits((8 * bytes) as u8),
        }
    } else {
        (WireValue { bits: 0, width: WireWidth::Unlimited }).spec_as_width(WireWidth::Bits((bytes * 8) as u8))
    }
}

/// What an action does when it does not fail, from state `s` to state `t`; writes to
/// register `zero_register` are dropped.
pub open spec fn action_effect(s: CycleState, a: Action, zero_register: nat, t: CycleState) -> bool {
    match a {
        Action::Assign(name, e, w) => {
            &&& spec_eval(e, s.values@, s.values.keys()) matches Ok(v) && wire_set(
                s.values,
                name@,
                v.spec_as_width(w),
                t.values,
            )
            &&& t.memory == s.memory
            &&& t.registers == s.registers
            &&& t.status == s.status
        },
        Action::ReadMemory { is_read, address, out_port, bytes } => {
            &&& wire_set(s.values, out_port@, memory_read_value(s, is_read, address, bytes), t.values)
            &&& t.memory == s.memory
            &&& t.registers == s.registers
            &&& t.status == s.status
        },
        Action::WriteMemory { is_write, address, in_port, bytes } => {
            let enabled = match is_write {
                None => true,
                Some(bit) => is_set(s.values, bit@),
            };
            let at = low_bits64(bits_of(s.values, address@));
            &&& t.values == s.values
            &&& t.registers == s.registers
            &&& t.status == s.status
            &&& if enabled {
                forall|x: u64|
                    #![trigger t.memory.byte(x)]
                    t.memory.byte(x) == if (offset(at, x) as nat) < bytes as nat {
                        byte_of(bits_of(s.values, in_port@), offset(at, x) as nat)
                    } else {
                        s.memory.byte(x)
                    }
            } else {
                t.memory == s.memory
            }
        },
        Action::SetStatus { in_wire } => {
            &&& t.status == if s.values@.dom().contains(in_wire@) {
                Some((s.values@[in_wire@].bits % 256) as u8)
            } else {
                None
            }
            &&& t.values == s.values
            &&& t.memory == s.memory
            &&& t.registers == s.registers
        },
        Action::ReadProgramRegister { number, out_port } => {
            let index = bits_of(s.values, number@);
            let x: u64 = if index < s.registers.len() {
                s.registers[index as int]
            } else {
                0
            };
            &&& wire_set(s.values, out_port@, WireValue { bits: x as u128, width: WireWidth::Bits(64) }, t.values)
            &&& t.memory == s.memory
            &&& t.registers == s.registers
            &&& t.status == s.status
        },
        Action::WriteProgramRegister { number, in_port } => {
            let index = bits_of(s.values, number@);
            &&& t.registers == if index < s.registers.len() && index != zero_register {
                s.registers.update(index as int, low_bits64(bits_of(s.values, in_port@)))
            } else {
                s.registers
            }
            &&& t.values == s.values
            &&& t.memory == s.memory
            &&& t.status == s.status
        },
    }
}

/// `states` is a run of the actions: each action takes its state to the next, and
/// none fails.
/// The status in a state: the low byte of `Stat`, or 1 (running) when it has no value.
pub open spec fn state_status(s: CycleState) -> u8 {
    if s.values@.dom().contains(seq!['S', 't', 'a', 't']) {
        (s.values@[seq!['S', 't', 'a', 't']].bits % 256) as u8
    } else {
        1
    }
}

/// A run is done in the state `s` at cycle `cycle`: the status is neither 0 nor 1
/// (running), or the cycle has reached the timeout.
pub open spec fn state_done(s: CycleState, cycle: int, timeout: int) -> bool {
    (state_status(s) != 1 && state_status(s) != 0) || cycle >= timeout
}

pub open spec fn actions_trace(states: Seq<CycleState>, acts: Seq<Action>, zero_register: nat) -> bool {
    &&& states.len() == acts.len() + 1
    &&& forall|i: int|
        #![trigger acts[i]]
        0 <= i < acts.len() ==> action_effect(states[i], acts[i], zero_register, states[i + 1])
}

/// The actions, carried out one after another from `s`, end in `t` and none fails.
pub open spec fn actions_effect(s: CycleState, acts: Seq<Action>, zero_register: nat, t: CycleState) -> bool {
    exists|states: Seq<CycleState>|
        #[trigger] actions_trace(states, acts, zero_register) && states[0] == s && states.last() == t
}

/// One register at the end of a cycle: its output takes the value of its input,
/// if the input has one.
pub open spec fn signal_copied(before: WireValues, signal: (String, String, WireWidth), after: WireValues) -> bool {
    if before@.dom().contains(signal.0@) {
        wire_set(before, signal.1@, before@[signal.0@], after)
    } else {
        after == before
    }
}

/// `states` is a run of the registers of a bank, one after another.
pub open spec fn signals_trace(states: Seq<WireValues>, signals: Seq<(String, String, WireWidth)>) -> bool {
    &&& states.len() == signals.len() + 1
    &&& forall|i: int| #![trigger signals[i]] 0 <= i < signals.len() ==> signal_copied(states[i], signals[i], states[i + 1])
}

/// The outputs of a bank's registers take the values of their inputs, one register
/// after another; a register whose input has no value keeps its output.
pub open spec fn signals_copied(before: WireValues, signals: Seq<(String, String, WireWidth)>, after: WireValues) -> bool {
    exists|states: Seq<WireValues>| #[trigger] signals_trace(states, signals) && states[0] == before && states.last() == after
}

/// `states` is a run of the defaults of a bank being set, in order.
pub open spec fn defaults_trace(states: Seq<WireValues>, defaults: WireValues) -> bool {
    &&& states.len() == defaults.keys().len() + 1
    &&& forall|i: int|
        #![trigger defaults.keys()[i]]
        0 <= i < defaults.keys().len() ==> wire_set(states[i], defaults.keys()[i], defaults@[defaults.keys()[i]], states[i + 1])
}

/// A bank's defaults are set, in order.
pub open spec fn defaults_set(before: WireValues, defaults: WireValues, after: WireValues) -> bool {
    exists|states: Seq<WireValues>| #[trigger] defaults_trace(states, defaults) && states[0] == before && states.last() == after
}

/// The end of a cycle for one bank: with its bubble signal set, its registers take
/// their defaults; otherwise, unless its stall signal is set, their outputs take
/// their inputs.
pub open spec fn bank_effect(before: WireValues, bank: RegisterBank, after: WireValues) -> bool {
    if is_set(before, bank.bubble_signal@) {
        defaults_set(before, bank.defaults, after)
    } else if !is_set(before, bank.stall_signal@) {
        signals_copied(before, bank.signals@, after)
    } else {
        after == before
    }
}

/// `states` is a run of the banks at the end of a cycle, one after another.
pub open spec fn banks_trace(states: Seq<WireValues>, banks: Seq<RegisterBank>) -> bool {
    &&& states.len() == banks.len() + 1
    &&& forall|i: int| #![trigger banks[i]] 0 <= i < banks.len() ==> bank_effect(states[i], banks[i], states[i + 1])
}

/// The end of a cycle for the banks, one after another.
pub open spec fn banks_effect(before: WireValues, banks: Seq<RegisterBank>, after: WireValues) -> bool {
    exists|states: Seq<WireValues>| #[trigger] banks_trace(states, banks) && states[0] == before && states.last() == after
}

/// The register numbered `zero_register` keeps its value through the actions of a
/// cycle, and the register file keeps its size.
pub proof fn lemma_zero_register_kept(s: CycleState, acts: Seq<Action>, zero_register: nat, t: CycleState)
    requires
        actions_effect(s, acts, zero_register, t),
    ensures
        t.registers.len() == s.registers.len(),
        zero_register < s.registers.len() ==> t.registers[zero_register as int] == s.registers[zero_register as int],
{
    let states = choose|states: Seq<CycleState>|
        #[trigger] actions_trace(states, acts, zero_register) && states[0] == s && states.last() == t;
    lemma_trace_registers(states, acts, zero_register, acts.len() as int);
}

proof fn lemma_trace_registers(states: Seq<CycleState>, acts: Seq<Action>, zero_register: nat, k: int)
    requires
        actions_trace(states, acts, zero_register),
        0 <= k <= acts.len(),
    ensures
        states[k].registers.len() == states[0].registers.len(),
        zero_register < states[0].registers.len() ==> states[k].registers[zero_register as int]
            == states[0].registers[zero_register as int],
    decreases k,
{
    if k > 0 {
        lemma_trace_registers(states, acts, zero_register, k - 1);
        assert(action_effect(states[k - 1], acts[k - 1], zero_register, states[k]));
    }
}

/// The line that tracing writes for an action that led to the state `after`: for an
/// assignment, the wire's name, ` set to ` and its new value in decimal.
pub open spec fn trace_line(a: Action, after: CycleState) -> Seq<u8> {
    match a {
        Action::Assign(name, _, _) => crate::text::utf8(
            name@ + " set to "@ + dec_digits(after.values@[name@].bits as nat) + seq!['\n'],
        ),
        _ => Seq::empty(),
    }
}

/// The lines that tracing writes for the first `k` actions, carried out through the
/// states `states`.
pub open spec fn trace_text(states: Seq<CycleState>, acts: Seq<Action>, k: int) -> Seq<u8>
    decreases k,
{
    if k <= 0 {
        Seq::empty()
    } else {
        trace_text(states, acts, k - 1) + trace_line(acts[k - 1], states[k])
    }
}

proof fn lemma_trace_text_prefix(s1: Seq<CycleState>, s2: Seq<CycleState>, acts: Seq<Action>, k: int)
    requires
        forall|j: int| 0 <= j <= k ==> s1[j] == s2[j],
    ensures
        trace_text(s1, acts, k) == trace_text(s2, acts, k),
    decreases k,
{
    if k > 0 {
        lemma_trace_text_prefix(s1, s2, acts, k - 1);
    }
}

/// Carries out one action on the state of a cycle; see `action_effect`. With
/// `trace`, an assignment's new value goes to `out`.
fn apply_action(
    values: &mut WireValues,
    memory: &mut Memory,
    registers: &mut Vec<u64>,
    status: &mut Option<u8>,
    zero_register: usize,
    action: &Action,
    trace: bool,
    out: &mut Vec<u8>,
) -> (r: Result<(), Error>)
    requires
        values_valid(*old(values)),
        action.wf(),
    ensures
        values_valid(*final(values)),
        r is Ok ==> action_effect(
            (CycleState { values: *old(values), memory: *old(memory), registers: old(registers)@, status: *old(status) }),
            *action,
            zero_register as nat,
            (CycleState {
                values: *final(values),
                memory: *final(memory),
                registers: final(registers)@,
                status: *final(status),
            }),
        ),
        r matches Err(e) ==> (*action matches Action::Assign(_, ex, _) && spec_eval(ex, old(values)@, old(values).keys())
            matches Err(f) && e.reports(f)),
        trace && r is Ok ==> final(out)@ == old(out)@ + trace_line(
            *action,
            (CycleState {
                values: *final(values),
                memory: *final(memory),
                registers: final(registers)@,
                status: *final(status),
            }),
        ),
        !(trace && r is Ok) ==> final(out)@ == old(out)@,
{
    let ghost s0 = CycleState { values: *values, memory: *memory, registers: registers@, status: *status };
    match action {
        Action::Assign(name, expr, width) => {
            let value = match expr.evaluate(values) {
                Ok(v) => v.as_width(*width),
                Err(e) => {
                    return Err(e);
                },
            };
            if trace {
                let mut line = String::new();
                push_str(&mut line, name.as_str());
                push_str(&mut line, " set to ");
                push_dec(&mut line, value.bits);
                push_str(&mut line, "\n");
                proof {
                    reveal_strlit("\n");
                    assert(line@ =~= name@ + " set to "@ + dec_digits(value.bits as nat) + seq!['\n']);
                }
                append_utf8(out, line.as_str());
            }
            values.insert(name.clone(), value);
            assert(values@[name@] == value);
        },
        Action::ReadMemory { is_read, address, out_port, bytes } => {
            let do_read = match is_read {
                None => true,
                Some(wire) => match values.get(wire.as_str()) {
                    Some(v) => v.is_true(),
                    None => false,
                },
            };
            if do_read {
                let address_value = match values.get(address.as_str()) {
                    Some(v) => low64(v.bits),
                    None => 0,
                };
                let value = memory.read(address_value, *bytes);
                assert(value == memory_read_value(s0, *is_read, *address, *bytes));
                values.insert(out_port.clone(), value);
            } else {
                let zero = WireValue::new(0).as_width(WireWidth::Bits(*bytes * 8));
                assert(zero == memory_read_value(s0, *is_read, *address, *bytes));
                values.insert(out_port.clone(), zero);
            }
        },
        Action::WriteMemory { is_write, address, in_port, bytes } => {
            let do_write = match is_write {
                None => true,
                Some(wire) => match values.get(wire.as_str()) {
                    Some(v) => v.is_true(),
                    None => false,
                },
            };
            if do_write {
                let address_value = match values.get(address.as_str()) {
                    Some(v) => low64(v.bits),
                    None => 0,
                };
                let input = match values.get(in_port.as_str()) {
                    Some(v) => v.bits,
                    None => 0,
                };
                memory.write(address_value, input, *bytes);
            }
        },
        Action::SetStatus { in_wire } => {
            *status = match values.get(in_wire.as_str()) {
                Some(v) => Some((v.bits % 256) as u8),
                None => None,
            };
        },
        Action::ReadProgramRegister { number, out_port } => {
            let index = match values.get(number.as_str()) {
                Some(v) => v.bits,
                None => 0,
            };
            if index < registers.len() as u128 {
                let x = registers[index as usize];
                values.insert(out_port.clone(), value64(x));
            } else {
                values.insert(out_port.clone(), value64(0));
            }
        },
        Action::WriteProgramRegister { number, in_port } => {
            let index = match values.get(number.as_str()) {
                Some(v) => v.bits,
                None => 0,
            };
            let input = match values.get(in_port.as_str()) {
                Some(v) => low64(v.bits),
                None => 0,
            };
            if index < registers.len() as u128 && index as usize != zero_register {
                registers.set(index as usize, input);
            }
        },
    }
    Ok(())
}

impl RunningProgram {
    /// The values of the wires are valid values.
    pub closed spec fn wf(self) -> bool {
        values_valid(self.values)
    }

    pub closed spec fn spec_cycle(self) -> u32 {
        self.cycle
    }

    pub closed spec fn spec_values(self) -> WireValues {
        self.values
    }

    pub open spec fn spec_timeout(self) -> u32 {
        self.spec_options()@.timeout
    }

    pub closed spec fn spec_options(self) -> RunOptions {
        self.options
    }

    pub closed spec fn spec_program(self) -> Program {
        self.program
    }

    /// The register whose writes are dropped.
    pub closed spec fn spec_zero_register(self) -> nat {
        self.zero_register as nat
    }

    /// What the actions of a cycle work on.
    pub closed spec fn cycle_state(self) -> CycleState {
        CycleState {
            values: self.values,
            memory: self.memory,
            registers: self.registers@,
            status: self.last_status,
        }
    }

    pub closed spec fn spec_memory(self) -> Memory {
        self.memory
    }

    /// Starts a program in its initial state, with a register file of the given
    /// size; writes to the register numbered `zero_register` are dropped.
    pub fn new(program: Program, num_registers: usize, zero_register: usize) -> (r: RunningProgram)
        ensures
            r.wf(),
            r.spec_cycle() == 0,
            r.spec_program() == program,
            r.spec_zero_register() == zero_register,
            r.spec_options()@ == (OptionsView {
                timeout: 1000,
                quiet: false,
                debug: false,
                test: false,
                prompt: false,
                group_wire_values: true,
                trace_assignments: false,
            }),
            r.cycle_state().registers == Seq::new(num_registers as nat, |i: int| 0u64),
            r.cycle_state().memory@ == Map::<u64, u8>::empty(),
            r.cycle_state().status == None::<u8>,
            exists|states: Seq<WireValues>|
                #[trigger] initial_trace(states, program.spec_banks()) && states[0]@ == program.spec_constants()@
                    && states[0].keys() == program.spec_constants().keys() && states.last() == r.cycle_state().values,
    {
        let values = program.initial_state();
        let mut registers: Vec<u64> = Vec::new();
        let mut i: usize = 0;
        while i < num_registers
            invariant
                i <= num_registers,
                registers@ == Seq::new(i as nat, |k: int| 0u64),
            decreases num_registers - i,
        {
            registers.push(0);
            i = i + 1;
            assert(registers@ =~= Seq::new(i as nat, |k: int| 0u64));
        }
        RunningProgram {
            program,
            cycle: 0,
            values,
            memory: Memory::new(),
            registers,
            zero_register,
            last_status: None,
            options: RunOptions::default(),
        }
    }

    /// Starts a program with the sixteen registers of the Y86-64, the last of which
    /// (register 15, "no register") is never written.
    pub fn new_y86(program: Program) -> (r: RunningProgram)
        ensures
            r.wf(),
            r.spec_cycle() == 0,
            r.spec_program() == program,
            r.spec_zero_register() == 15,
            r.cycle_state().registers == Seq::new(16, |i: int| 0u64),
            r.cycle_state().memory@ == Map::<u64, u8>::empty(),
            r.cycle_state().status == None::<u8>,
            exists|states: Seq<WireValues>|
                #[trigger] initial_trace(states, program.spec_banks()) && states[0]@ == program.spec_constants()@
                    && states[0].keys() == program.spec_constants().keys() && states.last() == r.cycle_state().values,
    {
        RunningProgram::new(program, 16, 15)
    }

    pub fn set_options(&mut self, options: RunOptions)
        requires
            old(self).wf(),
        ensures
            final(self).wf(),
            final(self).spec_cycle() == old(self).spec_cycle(),
            final(self).spec_options() == options,
            final(self).spec_values() == old(self).spec_values(),
            final(self).spec_memory() == old(self).spec_memory(),
    {
        self.options = options;
    }

    pub fn options(&self) -> (r: &RunOptions)
        ensures
            *r == self.spec_options(),
    {
        &self.options
    }

    pub fn set_timeout(&mut self, timeout: u32)
        requires
            old(self).wf(),
        ensures
            final(self).wf(),
            final(self).spec_cycle() == old(self).spec_cycle(),
            final(self).spec_options()@ == (OptionsView { timeout, ..old(self).spec_options()@ }),
            final(self).spec_values() == old(self).spec_values(),
            final(self).spec_memory() == old(self).spec_memory(),
    {
        self.options.timeout = timeout;
    }

    /// Loads the bytes of a `.yo` file into memory; see `Memory::load_from_y86`.
    pub fn load_memory_y86(&mut self, text: &str) -> (r: Result<(), Error>)
        requires
            old(self).wf(),
        ensures
            final(self).wf(),
            final(self).spec_cycle() == old(self).spec_cycle(),
            final(self).spec_options() == old(self).spec_options(),
            final(self).spec_values() == old(self).spec_values(),
            spec_lines(text@).len() == 0 ==> r == Err::<(), Error>(Error::EmptyFile()),
            forall|i: int|
                0 <= i < spec_lines(text@).len() && yo_line(#[trigger] spec_lines(text@)[i]) is Bad && (forall|j: int|
                    0 <= j < i ==> !(yo_line(spec_lines(text@)[j]) is Bad)) ==> (r matches Err(Error::UnparseableLine(
                    s,
                )) && s@ == spec_lines(text@)[i]),
            spec_lines(text@).len() > 0 && (forall|j: int|
                0 <= j < spec_lines(text@).len() ==> !(yo_line(#[trigger] spec_lines(text@)[j]) is Bad)) ==> r is Ok
                && final(self).spec_memory()@ == yo_load(old(self).spec_memory()@, spec_lines(text@)),
    {
        self.memory.load_from_y86(text)
    }

    pub fn memory(&self) -> (r: &Memory)
        ensures
            *r == self.spec_memory(),
    {
        &self.memory
    }

    pub fn cycle(&self) -> (r: u32)
        ensures
            r == self.spec_cycle(),
    {
        self.cycle
    }

    pub fn values(&self) -> (r: &WireValues)
        ensures
            *r == self.spec_values(),
    {
        &self.values
    }

    /// The value of the wire `Stat`, cut to 8 bits, or the default if it has none.
    pub fn status_or_default(&self, default: u8) -> (r: u8)
        ensures
            self.spec_values()@.dom().contains(seq!['S', 't', 'a', 't']) ==> r == self.spec_values()@[seq![
                'S',
                't',
                'a',
                't',
            ]].bits % 256,
            !self.spec_values()@.dom().contains(seq!['S', 't', 'a', 't']) ==> r == default,
    {
        proof {
            reveal_strlit("Stat");
            assert("Stat"@ =~= seq!['S', 't', 'a', 't']);
        }
        match self.values.get("Stat") {
            Some(v) => (v.bits % 256) as u8,
            None => default,
        }
    }

    pub open spec fn spec_status(self) -> u8 {
        if self.spec_values()@.dom().contains(seq!['S', 't', 'a', 't']) {
            (self.spec_values()@[seq!['S', 't', 'a', 't']].bits % 256) as u8
        } else {
            1
        }
    }

    /// The program has stopped: its status is neither bubble (0) nor OK (1), or it
    /// has run for as many cycles as the timeout.
    pub fn done(&self) -> (r: bool)
        ensures
            r == ((self.spec_status() != 1 && self.spec_status() != 0) || self.spec_cycle() >= self.spec_timeout()),
    {
        let status = self.status_or_default(1);
        (status != 1 && status != 0) || self.cycle >= self.options.timeout
    }

    /// The status is halt (2).
    pub fn halted(&self) -> (r: bool)
        ensures
            r == (self.spec_status() == 2),
    {
        self.status_or_default(1) == 2
    }

    pub fn timed_out(&self) -> (r: bool)
        ensures
            r == (self.spec_cycle() >= self.spec_timeout()),
    {
        self.cycle >= self.options.timeout
    }

    /// The name of the status, such as `2 (Halt)`.
    pub fn name_status_y86(&self) -> (r: &'static str)
        ensures
            r@ == status_name(
                if self.spec_values()@.dom().contains(seq!['S', 't', 'a', 't']) {
                    (self.spec_values()@[seq!['S', 't', 'a', 't']].bits % 256) as u8
                } else {
                    255
                },
            ),
    {
        y86_status_name(self.status_or_default(255))
    }

    /// Whether a wire is a bank's stall or bubble signal.
    fn is_control_signal(&self, name: &str) -> (r: bool)
        ensures
            r == exists|i: int|
                0 <= i < self.program.spec_banks().len() && control_signal_of(#[trigger] self.program.spec_banks()[i], name@),
    {
        let banks = self.program.register_banks();
        let mut i: usize = 0;
        while i < banks.len()
            invariant
                i <= banks@.len(),
                banks@ == self.program.spec_banks(),
                forall|a: int| 0 <= a < i ==> !control_signal_of(#[trigger] banks@[a], name@),
            decreases banks@.len() - i,
        {
            if crate::wires::str_eq(banks[i].stall_signal.as_str(), name) || crate::wires::str_eq(
                banks[i].bubble_signal.as_str(),
                name,
            ) {
                proof {
                    assert(control_signal_of(banks@[i as int], name@));
                }
                return true;
            }
            i = i + 1;
        }
        false
    }

    /// The kind of a wire when its value is printed: 0 for an input of fixed
    /// functionality, 1 for an output, 2 for a register wire, 3 for another wire.
    fn wire_group(&self, name: &str) -> (r: u8)
        ensures
            r == if names_of(self.program.spec_fixed_inputs()).contains(name@) {
                0u8
            } else if names_of(self.program.spec_fixed_outputs()).contains(name@) {
                1u8
            } else if exists|i: int, j: int|
                0 <= i < self.program.spec_banks().len() && 0 <= j < self.program.spec_banks()[i].signals@.len()
                    && register_signal_named(#[trigger] self.program.spec_banks()[i].signals@[j], name@) {
                2u8
            } else {
                3u8
            },
    {
        if contains_name(self.program.fixed_inputs(), name) {
            0
        } else if contains_name(self.program.fixed_outputs(), name) {
            1
        } else {
            let banks = self.program.register_banks();
            let mut i: usize = 0;
            while i < banks.len()
                invariant
                    i <= banks@.len(),
                    banks@ == self.program.spec_banks(),
                    !names_of(self.program.spec_fixed_inputs()).contains(name@),
                    !names_of(self.program.spec_fixed_outputs()).contains(name@),
                    forall|a: int, b: int|
                        0 <= a < i && 0 <= b < banks@[a].signals@.len() ==> !register_signal_named(
                            #[trigger] banks@[a].signals@[b],
                            name@,
                        ),
                decreases banks@.len() - i,
            {
                let mut j: usize = 0;
                while j < banks[i].signals.len()
                    invariant
                        i < banks@.len(),
                        j <= banks@[i as int].signals@.len(),
                        banks@ == self.program.spec_banks(),
                        !names_of(self.program.spec_fixed_inputs()).contains(name@),
                        !names_of(self.program.spec_fixed_outputs()).contains(name@),
                        forall|b: int| 0 <= b < j ==> !register_signal_named(#[trigger] banks@[i as int].signals@[b], name@),
                    decreases banks@[i as int].signals@.len() - j,
                {
                    if crate::wires::str_eq(banks[i].signals[j].0.as_str(), name) || crate::wires::str_eq(
                        banks[i].signals[j].1.as_str(),
                        name,
                    ) {
                        proof {
                            assert(register_signal_named(banks@[i as int].signals@[j as int], name@));
                        }
                        return 2;
                    }
                    j = j + 1;
                }
                i = i + 1;
            }
            3
        }
    }

    /// The values of the wires, one per line: the name, then, aligned, the value in
    /// hexadecimal with a digit for each four bits of the wire's width. Constants and
    /// stall and bubble signals are left out.
    fn wire_values_text(&self) -> (r: String) {
        let n = self.values.len();
        let mut shown: Vec<bool> = Vec::new();
        let mut max_name: usize = 0;
        let mut max_hex: usize = 0;
        let mut i: usize = 0;
        while i < n
            invariant
                n == self.values.spec_len(),
                i <= n,
                shown@.len() == i,
                max_name <= 1000,
                max_hex <= 32,
            decreases n - i,
        {
            let name = self.values.name_at(i);
            let constant = self.program.constants().contains_key(name.as_str());
            let show = !constant && !self.is_control_signal(name.as_str());
            shown.push(show);
            if show {
                let len = crate::text::chars_of(name.as_str()).len();
                if len > max_name {
                    max_name = if len > 1000 {
                        1000
                    } else {
                        len
                    };
                }
                let bits = self.values.value_at_index(i).width.bits_or_128();
                let hex = ((bits as usize) + 3) / 4;
                if hex > max_hex {
                    max_hex = if hex > 32 {
                        32
                    } else {
                        hex
                    };
                }
            }
            i = i + 1;
        }
        let mut out = String::new();
        let groups: u8 = if self.options.group_wire_values {
            4
        } else {
            1
        };
        let mut g: u8 = 0;
        while g < groups
            invariant
                g <= groups <= 4,
                n == self.values.spec_len(),
                shown@.len() == n,
                max_name <= 1000,
                max_hex <= 32,
            decreases groups - g,
        {
            if groups > 1 {
                if g == 0 {
                    push_str(&mut out, "Values of inputs to built-in components:\n");
                } else if g == 1 {
                    push_str(&mut out, "Values of outputs of built-in components:\n");
                } else if g == 2 {
                    push_str(&mut out, "Values of register bank signals:\n");
                } else {
                    push_str(&mut out, "Values of other wires:\n");
                }
            } else {
                push_str(&mut out, "Values of wires:\n");
            }
            let mut i: usize = 0;
            while i < n
                invariant
                    n == self.values.spec_len(),
                    shown@.len() == n,
                    i <= n,
                    max_name <= 1000,
                    max_hex <= 32,
                decreases n - i,
            {
                let name = self.values.name_at(i);
                if shown[i] && (groups == 1 || self.wire_group(name.as_str()) == g) {
                    let value = self.values.value_at_index(i);
                    let bits = value.width.bits_or_128();
                    let hex = ((bits as usize) + 3) / 4;
                    let len = crate::text::chars_of(name.as_str()).len();
                    push_str(&mut out, name.as_str());
                    let total = max_name + max_hex + 2;
                    if len < total && hex < total - len {
                        push_repeat(&mut out, ' ', total - len - hex);
                    } else {
                        push_str(&mut out, " ");
                    }
                    push_str(&mut out, "0x");
                    push_hex_padded(&mut out, value.bits, hex);
                    push_str(&mut out, "\n");
                }
                i = i + 1;
            }
            g = g + 1;
        }
        out
    }

    /// Carries out the actions of a cycle in order, then, at the end of the cycle,
    /// updates the register banks: a bank whose bubble signal is true takes its
    /// defaults; otherwise, unless its stall signal is true, each register's output
    /// takes its input. Debug and trace text goes to `out`. An expression that cannot
    /// be evaluated ends the cycle with its error.
    #[verifier::spinoff_prover]
    #[verifier::rlimit(40)]
    pub fn step_with_output(&mut self, out: &mut Vec<u8>) -> (r: Result<(), Error>)
        requires
            old(self).wf(),
        ensures
            final(self).wf(),
            final(self).spec_options() == old(self).spec_options(),
            final(self).spec_program() == old(self).spec_program(),
            final(self).spec_zero_register() == old(self).spec_zero_register(),
            r is Ok ==> final(self).spec_cycle() == if old(self).spec_cycle() < u32::MAX {
                (old(self).spec_cycle() + 1) as u32
            } else {
                old(self).spec_cycle()
            },
            r is Err ==> final(self).spec_cycle() == old(self).spec_cycle(),
            r is Ok ==> exists|m: CycleState|
                #[trigger] actions_effect(
                    old(self).cycle_state(),
                    old(self).spec_program().spec_actions(),
                    old(self).spec_zero_register(),
                    m,
                ) && banks_effect(m.values, old(self).spec_program().spec_banks(), final(self).cycle_state().values)
                    && final(self).cycle_state().memory == m.memory && final(self).cycle_state().registers
                    == m.registers && final(self).cycle_state().status == m.status,
            r matches Err(e) ==> exists|k: int, m: CycleState|
                0 <= k < old(self).spec_program().spec_actions().len() && #[trigger] actions_effect(
                    old(self).cycle_state(),
                    old(self).spec_program().spec_actions().take(k),
                    old(self).spec_zero_register(),
                    m,
                ) && (old(self).spec_program().spec_actions()[k] matches Action::Assign(_, ex, _) && spec_eval(
                    ex,
                    m.values@,
                    m.values.keys(),
                ) matches Err(f) && e.reports(f)),
            final(out)@.len() >= old(out)@.len(),
            final(out)@.subrange(0, old(out)@.len() as int) == old(out)@,
            r is Ok && !old(self).spec_options()@.debug ==> exists|states: Seq<CycleState>|
                #[trigger] actions_trace(states, old(self).spec_program().spec_actions(), old(self).spec_zero_register())
                    && states[0] == old(self).cycle_state() && final(out)@ == old(out)@ + if old(
                    self,
                ).spec_options()@.trace_assignments {
                    trace_text(
                        states,
                        old(self).spec_program().spec_actions(),
                        old(self).spec_program().spec_actions().len() as int,
                    )
                } else {
                    Seq::empty()
                },
    {
        let ghost start = self.cycle_state();
        let ghost zero = self.zero_register as nat;
        let actions = self.program.actions();
        let ghost acts = actions@;
        let trace = self.options.trace_assignments;
        let ghost mut states: Seq<CycleState> = seq![start];
        let mut i: usize = 0;
        assert(acts.take(0) =~= Seq::<Action>::empty());
        while i < actions.len()
            invariant
                values_valid(self.values),
                i <= actions@.len(),
                acts == actions@,
                acts == self.program.spec_actions(),
                forall|k: int| 0 <= k < actions@.len() ==> (#[trigger] actions@[k]).wf(),
                self.cycle == old(self).cycle,
                self.options == old(self).options,
                self.program == old(self).program,
                self.zero_register == old(self).zero_register,
                zero == self.zero_register as nat,
                start == old(self).cycle_state(),
                actions_trace(states, acts.take(i as int), zero),
                states[0] == start,
                states.last() == self.cycle_state(),
                trace == old(self).options.trace_assignments,
                out@ == old(out)@ + if trace {
                    trace_text(states, acts, i as int)
                } else {
                    Seq::empty()
                },
            decreases actions@.len() - i,
        {
            let ghost before = self.cycle_state();
            assert(actions@[i as int].wf());
            let result = apply_action(
                &mut self.values,
                &mut self.memory,
                &mut self.registers,
                &mut self.last_status,
                self.zero_register,
                &actions[i],
                trace,
                out,
            );
            match result {
                Ok(()) => {},
                Err(e) => {
                    assert(actions_trace(states, acts.take(i as int), zero));
                    assert(actions_effect(start, acts.take(i as int), zero, before));
                    assert(acts[i as int] matches Action::Assign(_, ex, _) && spec_eval(
                        ex,
                        before.values@,
                        before.values.keys(),
                    ) matches Err(f) && e.reports(f));
                    return Err(e);
                },
            }
            proof {
                let next = states.push(self.cycle_state());
                lemma_trace_text_prefix(states, next, acts, i as int);
                assert(next[i + 1] == self.cycle_state());
                let t = acts.take(i + 1);
                assert forall|j: int| #![trigger t[j]] 0 <= j < t.len() implies action_effect(
                    next[j],
                    t[j],
                    zero,
                    next[j + 1],
                ) by {
                    if j < i {
                        assert(acts.take(i as int)[j] == t[j]);
                    }
                }
                assert(actions_trace(next, t, zero));
                states = next;
            }
            i = i + 1;
        }
        assert(acts.take(actions@.len() as int) =~= acts);
        let ghost m = self.cycle_state();
        assert(actions_trace(states, acts, zero));
        assert(actions_effect(start, acts, zero, m));
        if self.options.debug {
            let text = self.wire_values_text();
            append_utf8(out, text.as_str());
        }
        self.update_register_banks();
        if self.cycle < u32::MAX {
            self.cycle = self.cycle + 1;
        }
        assert(banks_effect(m.values, old(self).spec_program().spec_banks(), self.cycle_state().values));
        assert(actions_effect(
            old(self).cycle_state(),
            old(self).spec_program().spec_actions(),
            old(self).spec_zero_register(),
            m,
        ));
        Ok(())
    }

    /// Runs one cycle; see `step_with_output`.
    pub fn step(&mut self) -> (r: Result<(), Error>)
        requires
            old(self).wf(),
        ensures
            final(self).wf(),
            final(self).spec_options() == old(self).spec_options(),
            final(self).spec_program() == old(self).spec_program(),
            final(self).spec_zero_register() == old(self).spec_zero_register(),
            r is Ok ==> final(self).spec_cycle() == if old(self).spec_cycle() < u32::MAX {
                (old(self).spec_cycle() + 1) as u32
            } else {
                old(self).spec_cycle()
            },
            r is Err ==> final(self).spec_cycle() == old(self).spec_cycle(),
            r is Ok ==> exists|m: CycleState|
                #[trigger] actions_effect(
                    old(self).cycle_state(),
                    old(self).spec_program().spec_actions(),
                    old(self).spec_zero_register(),
                    m,
                ) && banks_effect(m.values, old(self).spec_program().spec_banks(), final(self).cycle_state().values)
                    && final(self).cycle_state().memory == m.memory && final(self).cycle_state().registers
                    == m.registers && final(self).cycle_state().status == m.status,
            r matches Err(e) ==> exists|k: int, m: CycleState|
                0 <= k < old(self).spec_program().spec_actions().len() && #[trigger] actions_effect(
                    old(self).cycle_state(),
                    old(self).spec_program().spec_actions().take(k),
                    old(self).spec_zero_register(),
                    m,
                ) && (old(self).spec_program().spec_actions()[k] matches Action::Assign(_, ex, _) && spec_eval(
                    ex,
                    m.values@,
                    m.values.keys(),
                ) matches Err(f) && e.reports(f)),
    {
        let mut sink: Vec<u8> = Vec::new();
        self.step_with_output(&mut sink)
    }

    /// The end of a cycle for the register banks.
    fn update_register_banks(&mut self)
        requires
            old(self).wf(),
        ensures
            final(self).wf(),
            final(self).cycle == old(self).cycle,
            final(self).options == old(self).options,
            final(self).program == old(self).program,
            final(self).zero_register == old(self).zero_register,
            final(self).memory == old(self).memory,
            final(self).registers == old(self).registers,
            final(self).last_status == old(self).last_status,
            banks_effect(old(self).values, old(self).program.spec_banks(), final(self).values),
    {
        let banks = self.program.register_banks();
        let ghost bs = banks@;
        let ghost mut bstates: Seq<WireValues> = seq![self.values];
        let mut i: usize = 0;
        assert(bs.take(0) =~= Seq::<RegisterBank>::empty());
        while i < banks.len()
            invariant
                values_valid(self.values),
                i <= banks@.len(),
                bs == banks@,
                bs == self.program.spec_banks(),
                forall|k: int| 0 <= k < banks@.len() ==> (#[trigger] banks@[k]).wf(),
                self.cycle == old(self).cycle,
                self.options == old(self).options,
                self.program == old(self).program,
                self.zero_register == old(self).zero_register,
                self.memory == old(self).memory,
                self.registers == old(self).registers,
                self.last_status == old(self).last_status,
                banks_trace(bstates, bs.take(i as int)),
                bstates[0] == old(self).values,
                bstates.last() == self.values,
            decreases banks@.len() - i,
        {
            let bank = &banks[i];
            let ghost before = self.values;
            assert(banks@[i as int].wf());
            let stalled = match self.values.get(bank.stall_signal.as_str()) {
                Some(v) => v.is_true(),
                None => false,
            };
            let bubbled = match self.values.get(bank.bubble_signal.as_str()) {
                Some(v) => v.is_true(),
                None => false,
            };
            if bubbled {
                let mut j: usize = 0;
                proof {
                    use_type_invariant(&bank.defaults);
                    bank.defaults.lemma_keys();
                }
                let ghost mut dstates: Seq<WireValues> = seq![before];
                while j < bank.defaults.len()
                    invariant
                        values_valid(self.values),
                        bank.wf(),
                        bank.defaults.keys().len() == bank.defaults.spec_len(),
                        j <= bank.defaults.spec_len(),
                        dstates.len() == j + 1,
                        dstates[0] == before,
                        dstates.last() == self.values,
                        forall|x: int|
                            #![trigger bank.defaults.keys()[x]]
                            0 <= x < j ==> wire_set(
                                dstates[x],
                                bank.defaults.keys()[x],
                                bank.defaults@[bank.defaults.keys()[x]],
                                dstates[x + 1],
                            ),
                        self.cycle == old(self).cycle,
                        self.options == old(self).options,
                        self.program == old(self).program,
                        self.zero_register == old(self).zero_register,
                        self.memory == old(self).memory,
                        self.registers == old(self).registers,
                        self.last_status == old(self).last_status,
                    decreases bank.defaults.spec_len() - j,
                {
                    proof {
                        use_type_invariant(&bank.defaults);
                        bank.defaults.lemma_keys();
                        assert(bank.defaults@.dom().contains(bank.defaults.keys()[j as int]));
                    }
                    let ghost m = self.values;
                    let v = bank.defaults.value_at_index(j);
                    let name = bank.defaults.name_at(j).clone();
                    let ghost k = bank.defaults.keys()[j as int];
                    self.values.insert(name, v);
                    proof {
                        assert(wire_set(m, k, bank.defaults@[k], self.values));
                        let next = dstates.push(self.values);
                        assert forall|x: int|
                            #![trigger bank.defaults.keys()[x]]
                            0 <= x < j + 1 implies wire_set(
                                next[x],
                                bank.defaults.keys()[x],
                                bank.defaults@[bank.defaults.keys()[x]],
                                next[x + 1],
                            ) by {
                            if x < j {
                                assert(next[x] == dstates[x]);
                                assert(next[x + 1] == dstates[x + 1]);
                            }
                        }
                        dstates = next;
                    }
                    j = j + 1;
                }
                assert(defaults_trace(dstates, bank.defaults));
            } else if !stalled {
                let mut j: usize = 0;
                let ghost mut sstates: Seq<WireValues> = seq![before];
                while j < bank.signals.len()
                    invariant
                        values_valid(self.values),
                        j <= bank.signals@.len(),
                        sstates.len() == j + 1,
                        sstates[0] == before,
                        sstates.last() == self.values,
                        forall|x: int|
                            #![trigger bank.signals@[x]]
                            0 <= x < j ==> signal_copied(sstates[x], bank.signals@[x], sstates[x + 1]),
                        self.cycle == old(self).cycle,
                        self.options == old(self).options,
                        self.program == old(self).program,
                        self.zero_register == old(self).zero_register,
                        self.memory == old(self).memory,
                        self.registers == old(self).registers,
                        self.last_status == old(self).last_status,
                    decreases bank.signals@.len() - j,
                {
                    let ghost m = self.values;
                    match self.values.get(bank.signals[j].0.as_str()) {
                        Some(v) => {
                            let v = *v;
                            self.values.insert(bank.signals[j].1.clone(), v);
                        },
                        None => {},
                    }
                    proof {
                        assert(signal_copied(m, bank.signals@[j as int], self.values));
                        let next = sstates.push(self.values);
                        assert forall|x: int|
                            #![trigger bank.signals@[x]]
                            0 <= x < j + 1 implies signal_copied(next[x], bank.signals@[x], next[x + 1]) by {
                            if x < j {
                                assert(next[x] == sstates[x]);
                                assert(next[x + 1] == sstates[x + 1]);
                            }
                        }
                        sstates = next;
                    }
                    j = j + 1;
                }
                assert(signals_trace(sstates, bank.signals@));
            }
            proof {
                assert(bank_effect(before, bs[i as int], self.values));
                let next = bstates.push(self.values);
                let t = bs.take(i + 1);
                assert forall|x: int| #![trigger t[x]] 0 <= x < t.len() implies bank_effect(next[x], t[x], next[x + 1]) by {
                    if x < i {
                        assert(bs.take(i as int)[x] == t[x]);
                        assert(next[x] == bstates[x]);
                        assert(next[x + 1] == bstates[x + 1]);
                    }
                }
                bstates = next;
            }
            i = i + 1;
        }
        assert(bs.take(banks@.len() as int) =~= bs);
        assert(banks_trace(bstates, bs));
    }

    /// Prints the state, unless quiet, then runs one cycle.
    pub fn show_and_step(&mut self, out: &mut Vec<u8>) -> (r: Result<(), Error>)
        requires
            old(self).wf(),
        ensures
            final(self).wf(),
            final(self).spec_options() == old(self).spec_options(),
            final(self).spec_program() == old(self).spec_program(),
            final(self).spec_zero_register() == old(self).spec_zero_register(),
            r is Ok ==> final(self).spec_cycle() == if old(self).spec_cycle() < u32::MAX {
                (old(self).spec_cycle() + 1) as u32
            } else {
                old(self).spec_cycle()
            },
            r is Err ==> final(self).spec_cycle() == old(self).spec_cycle(),
            r is Ok ==> exists|m: CycleState|
                #[trigger] actions_effect(
                    old(self).cycle_state(),
                    old(self).spec_program().spec_actions(),
                    old(self).spec_zero_register(),
                    m,
                ) && banks_effect(m.values, old(self).spec_program().spec_banks(), final(self).cycle_state().values)
                    && final(self).cycle_state().memory == m.memory && final(self).cycle_state().registers
                    == m.registers && final(self).cycle_state().status == m.status,
            r matches Err(e) ==> exists|k: int, m: CycleState|
                0 <= k < old(self).spec_program().spec_actions().len() && #[trigger] actions_effect(
                    old(self).cycle_state(),
                    old(self).spec_program().spec_actions().take(k),
                    old(self).spec_zero_register(),
                    m,
                ) && (old(self).spec_program().spec_actions()[k] matches Action::Assign(_, ex, _) && spec_eval(
                    ex,
                    m.values@,
                    m.values.keys(),
                ) matches Err(f) && e.reports(f)),
    {
        if !self.options.quiet {
            let text = self.dump_y86_str();
            append_utf8(out, text.as_str());
        }
        self.step_with_output(out)
    }

    /// Runs cycles until the program is done, printing the state before each cycle
    /// unless quiet.
    pub fn run(&mut self, out: &mut Vec<u8>) -> (r: Result<(), Error>)
        requires
            old(self).wf(),
        ensures
            final(self).wf(),
            final(self).spec_program() == old(self).spec_program(),
            final(self).spec_options() == old(self).spec_options(),
            r is Ok ==> final(self).spec_cycle() >= final(self).spec_timeout() || (final(self).spec_status() != 0
                && final(self).spec_status() != 1),
            r is Ok ==> exists|states: Seq<CycleState>|
                #[trigger] cycles(old(self).spec_program(), old(self).spec_zero_register(), states) && states.len() >= 1
                    && states[0] == old(self).cycle_state() && states.last() == final(self).cycle_state()
                    && final(self).spec_cycle() == old(self).spec_cycle() + states.len() - 1 && state_done(
                    states.last(),
                    final(self).spec_cycle() as int,
                    old(self).spec_timeout() as int,
                ) && forall|k: int|
                    0 <= k < states.len() - 1 ==> !state_done(
                        #[trigger] states[k],
                        old(self).spec_cycle() + k,
                        old(self).spec_timeout() as int,
                    ),
            r matches Err(e) ==> exists|states: Seq<CycleState>|
                #[trigger] cycles(old(self).spec_program(), old(self).spec_zero_register(), states) && states.len() >= 1
                    && states[0] == old(self).cycle_state() && cycle_fails(
                    old(self).spec_program(),
                    old(self).spec_zero_register(),
                    states.last(),
                    e,
                ),
    {
        let ghost p = self.spec_program();
        let ghost zero = self.spec_zero_register();
        let ghost mut states: Seq<CycleState> = seq![self.cycle_state()];
        while !self.done()
            invariant
                self.wf(),
                self.spec_program() == p,
                self.spec_zero_register() == zero,
                self.spec_options() == old(self).spec_options(),
                p == old(self).spec_program(),
                zero == old(self).spec_zero_register(),
                cycles(p, zero, states),
                states.len() >= 1,
                states[0] == old(self).cycle_state(),
                states.last() == self.cycle_state(),
                self.spec_cycle() == old(self).spec_cycle() + states.len() - 1,
                forall|k: int|
                    0 <= k < states.len() - 1 ==> !state_done(
                        #[trigger] states[k],
                        old(self).spec_cycle() + k,
                        old(self).spec_timeout() as int,
                    ),
            decreases self.spec_timeout() - self.spec_cycle(),
        {
            let ghost before = self.cycle_state();
            assert(state_status(before) == self.spec_status());
            assert(!state_done(before, self.spec_cycle() as int, old(self).spec_timeout() as int));
            match self.show_and_step(out) {
                Ok(()) => {
                    proof {
                        assert(cycle_step(p, zero, before, self.cycle_state()));
                        let next = states.push(self.cycle_state());
                        assert forall|k: int| 0 <= k < next.len() - 1 implies !state_done(
                            #[trigger] next[k],
                            old(self).spec_cycle() + k,
                            old(self).spec_timeout() as int,
                        ) by {
                            assert(next[k] == states[k]);
                        }
                        assert forall|i: int| 0 <= i < next.len() - 1 implies cycle_step(
                            p,
                            zero,
                            next[i],
                            #[trigger] next[i + 1],
                        ) by {
                            if i < states.len() - 1 {
                                assert(next[i] == states[i] && next[i + 1] == states[i + 1]);
                            }
                        }
                        states = next;
                    }
                },
                Err(e) => {
                    proof {
                        assert(cycle_fails(p, zero, before, e));
                    }
                    return Err(e);
                },
            }
        }
        assert(state_status(self.cycle_state()) == self.spec_status());
        Ok(())
    }

    fn push_register(&self, s: &mut String, label: &str, i: usize)
        ensures
            final(s)@ == old(s)@ + register_field(label@, self.registers@, i as int),
    {
        push_str(s, label);
        let v: u64 = if i < self.registers.len() {
            self.registers[i]
        } else {
            0
        };
        push_hex_right_aligned(s, v as u128, 16);
        proof {
            assert(final(s)@ =~= old(s)@ + register_field(label@, self.registers@, i as int));
        }
    }

    /// The register file, three registers to a line.
    fn dump_program_registers_y86(&self) -> (r: String)
        ensures
            r@ == registers_text(self.registers@),
    {
        let mut s = String::new();
        self.push_register(&mut s, "| RAX: ", 0);
        self.push_register(&mut s, "   RCX: ", 1);
        self.push_register(&mut s, "   RDX: ", 2);
        push_str(&mut s, " |\n");
        self.push_register(&mut s, "| RBX: ", 3);
        self.push_register(&mut s, "   RSP: ", 4);
        self.push_register(&mut s, "   RBP: ", 5);
        push_str(&mut s, " |\n");
        self.push_register(&mut s, "| RSI: ", 6);
        self.push_register(&mut s, "   RDI: ", 7);
        self.push_register(&mut s, "   R8:  ", 8);
        push_str(&mut s, " |\n");
        self.push_register(&mut s, "| R9:  ", 9);
        self.push_register(&mut s, "   R10: ", 10);
        self.push_register(&mut s, "   R11: ", 11);
        push_str(&mut s, " |\n");
        self.push_register(&mut s, "| R12: ", 12);
        self.push_register(&mut s, "   R13: ", 13);
        self.push_register(&mut s, "   R14: ", 14);
        push_str(&mut s, " |\n");
        proof {
            assert(s@ =~= registers_text(self.registers@));
        }
        s
    }

    /// Appends spaces from column `line_loc` up to column `max_loc`.
    fn pad_to(s: &mut String, line_loc: u128, max_loc: u128) -> (r: u128)
        ensures
            r == if line_loc < max_loc {
                max_loc
            } else {
                line_loc
            },
            final(s)@ == old(s)@ + pad_to_text(line_loc as nat, max_loc as nat),
    {
        if line_loc < max_loc {
            let n = max_loc - line_loc;
            let mut k: u128 = 0;
            while k < n
                invariant
                    k <= n,
                    s@ == old(s)@ + repeat_char(' ', k as nat),
                decreases n - k,
            {
                push_str(s, " ");
                proof {
                    reveal_strlit(" ");
                    assert(s@ =~= old(s)@ + repeat_char(' ', (k + 1) as nat));
                }
                k = k + 1;
            }
            max_loc
        } else {
            proof {
                assert(final(s)@ =~= old(s)@ + pad_to_text(line_loc as nat, max_loc as nat));
            }
            line_loc
        }
    }

    /// The bits of a wire's value, or zero if it has none.
    fn bits_or_zero(&self, name: &str) -> (r: u128)
        ensures
            r == bits_of(self.values, name@),
    {
        match self.values.get(name) {
            Some(v) => v.bits,
            None => 0,
        }
    }

    /// Whether a wire has a value other than zero.
    fn wire_is_set(&self, name: &str) -> (r: bool)
        ensures
            r == is_set(self.values, name@),
    {
        match self.values.get(name) {
            Some(v) => v.is_true(),
            None => false,
        }
    }

    /// Appends a register's field after column `line_loc`, and gives the column after it.
    #[verifier::spinoff_prover]
    #[verifier::rlimit(40)]
    fn push_field(&self, s: &mut String, sig: &(String, String, WireWidth), line_loc: u128) -> (r: u128)
        requires
            line_loc <= 0x1_0000_0000_0000_0000_0000,
        ensures
            final(s)@ == old(s)@ + field_text(self.values, *sig, line_loc as nat),
            r == field_end(*sig, line_loc as nat),
            r <= 0x1_0000_0000_0000_0000_0000,
    {
        let max_loc: u128 = 71;
        let in_chars = crate::text::chars_of(sig.0.as_str());
        let name: Vec<char> = if in_chars.len() >= 2 {
            crate::lexer::slice_of(&in_chars, 2, in_chars.len())
        } else {
            Vec::new()
        };
        proof {
            assert(name@ =~= shown_register_name(sig.0@));
        }
        let hex_width = ((sig.2.bits_or_128() as u128) + 3) / 4;
        let name_len: u128 = name.len() as u128;
        let mut loc = line_loc;
        let wrap = line_loc + 2 + hex_width + name_len >= max_loc;
        if wrap {
            Self::pad_to(s, line_loc, max_loc);
            push_str(s, " |\n| ");
            loc = 2;
        }
        let ghost wrapped = s@;
        let value = self.bits_or_zero(sig.1.as_str());
        push_str(s, " ");
        crate::text::push_chars(s, name.as_slice());
        push_str(s, "=");
        push_hex_padded(s, value, hex_width as usize);
        proof {
            if wrap {
                assert(wrapped =~= old(s)@ + (pad_to_text(line_loc as nat, line_end()) + " |\n| "@));
            } else {
                assert(wrapped =~= old(s)@ + Seq::empty());
            }
            assert(final(s)@ =~= old(s)@ + field_text(self.values, *sig, line_loc as nat));
        }
        loc + 2 + hex_width + name_len
    }

    /// One register bank: its name, whether it is stalled (S), bubbled (B) or neither
    /// (N), and each register's value, in lines of the width of the state display.
    fn dump_bank(&self, bank: &RegisterBank) -> (r: String)
        ensures
            r@ == bank_text(self.values, *bank),
    {
        let mut s = String::new();
        let max_loc: u128 = 71;
        let stalled = self.wire_is_set(bank.stall_signal.as_str());
        let bubbled = self.wire_is_set(bank.bubble_signal.as_str());
        let status = if bubbled {
            "B"
        } else if stalled {
            "S"
        } else {
            "N"
        };
        push_str(&mut s, "| register ");
        push_str(&mut s, bank.label.as_str());
        push_str(&mut s, "(");
        push_str(&mut s, status);
        push_str(&mut s, ") {");
        let ghost head = s@;
        proof {
            assert(head == "| register "@ + bank.label@ + "("@ + bank_status(self.values, *bank) + ") {"@);
            assert(s@ =~= head + bank_fields(self.values, bank.signals@, 0).0);
        }
        let mut line_loc: u128 = 18;
        let mut j: usize = 0;
        while j < bank.signals.len()
            invariant
                j <= bank.signals@.len(),
                max_loc == 71,
                s@ == head + bank_fields(self.values, bank.signals@, j as nat).0,
                line_loc == bank_fields(self.values, bank.signals@, j as nat).1,
                line_loc <= 0x1_0000_0000_0000_0000_0000,
            decreases bank.signals@.len() - j,
        {
            let ghost t = s@;
            line_loc = self.push_field(&mut s, &bank.signals[j], line_loc);
            proof {
                assert(s@ =~= head + bank_fields(self.values, bank.signals@, (j + 1) as nat).0);
            }
            j = j + 1;
        }
        let ghost fields = s@;
        let ghost loc0 = line_loc as nat;
        let wrap = line_loc + 2 >= max_loc;
        if wrap {
            Self::pad_to(&mut s, line_loc, max_loc);
            push_str(&mut s, " |\n| ");
            line_loc = 2;
        }
        push_str(&mut s, " }");
        line_loc = line_loc + 2;
        Self::pad_to(&mut s, line_loc, max_loc);
        push_str(&mut s, " |\n");
        proof {
            assert(bank.signals@.len() == j);
            assert(s@ =~= bank_text(self.values, *bank));
        }
        s
    }

    /// The letter of a bank: the last character of its stall signal's name.
    fn letter_of(bank: &RegisterBank) -> (r: char)
        ensures
            r == bank_letter(*bank),
    {
        let chars = crate::text::chars_of(bank.stall_signal.as_str());
        if chars.len() > 0 {
            chars[chars.len() - 1]
        } else {
            ' '
        }
    }

    /// The text of the last bank whose letter has the code, if there is one.
    fn dump_letter(&self, banks: &Vec<RegisterBank>, code: u32) -> (r: String)
        ensures
            r@ == letter_bank_text(self.values, banks@, code as nat),
    {
        let mut last: Option<usize> = None;
        let mut i: usize = 0;
        while i < banks.len()
            invariant
                i <= banks@.len(),
                match last {
                    Some(x) => x < i && bank_letter(banks@[x as int]) as nat == code && forall|j: int|
                        x < j < i ==> bank_letter(#[trigger] banks@[j]) as nat != code,
                    None => forall|j: int| 0 <= j < i ==> bank_letter(#[trigger] banks@[j]) as nat != code,
                },
            decreases banks@.len() - i,
        {
            if Self::letter_of(&banks[i]) as u32 == code {
                last = Some(i);
            }
            i = i + 1;
        }
        match last {
            Some(x) => {
                proof {
                    assert(is_last_with_code(banks@, code as nat, x as int));
                    let y = choose|y: int| is_last_with_code(banks@, code as nat, y);
                    if y < x {
                        assert(bank_letter(banks@[x as int]) as nat != code);
                    } else if x < y {
                        assert(bank_letter(banks@[y]) as nat != code);
                    }
                }
                self.dump_bank(&banks[x])
            },
            None => {
                proof {
                    assert forall|y: int| !is_last_with_code(banks@, code as nat, y) by {
                        if 0 <= y < banks@.len() {
                            assert(bank_letter(banks@[y]) as nat != code);
                        }
                    }
                }
                String::new()
            },
        }
    }

    /// The register banks: first those of the letters P, F, D, E, M and W, in that
    /// order, then the others by letter; for a letter that several banks have, the
    /// last.
    fn dump_custom_registers_y86(&self) -> (r: String)
        ensures
            r@ == banks_text(self.values, self.program.spec_banks()),
    {
        let banks = self.program.register_banks();
        let mut s = String::new();
        push_str(&mut s, self.dump_letter(banks, 'P' as u32).as_str());
        push_str(&mut s, self.dump_letter(banks, 'F' as u32).as_str());
        push_str(&mut s, self.dump_letter(banks, 'D' as u32).as_str());
        push_str(&mut s, self.dump_letter(banks, 'E' as u32).as_str());
        push_str(&mut s, self.dump_letter(banks, 'M' as u32).as_str());
        push_str(&mut s, self.dump_letter(banks, 'W' as u32).as_str());
        let ghost pipeline = s@;
        let mut lo: u32 = 0;
        loop
            invariant
                banks@ == self.program.spec_banks(),
                lo <= 0x110000,
                s@ == pipeline + other_banks_text(self.values, banks@, 0, lo as nat),
            ensures
                forall|c: nat| lo <= c < 0x110000 ==> !other_letter_code(banks@, c),
                s@ == pipeline + other_banks_text(self.values, banks@, 0, lo as nat),
            decreases 0x110000 - lo,
        {
            let mut best: Option<u32> = None;
            let mut i: usize = 0;
            while i < banks.len()
                invariant
                    i <= banks@.len(),
                    lo <= 0x110000,
                    match best {
                        Some(b) => lo <= b < 0x110000 && other_letter_code(banks@, b as nat) && forall|j: int|
                            0 <= j < i && !pipeline_letter(bank_letter(#[trigger] banks@[j])) && lo <= bank_letter(
                                banks@[j],
                            ) as nat ==> b <= bank_letter(banks@[j]) as nat,
                        None => forall|j: int|
                            0 <= j < i && !pipeline_letter(bank_letter(#[trigger] banks@[j])) ==> (bank_letter(
                                banks@[j],
                            ) as nat) < lo,
                    },
                decreases banks@.len() - i,
            {
                let c = Self::letter_of(&banks[i]);
                let in_pipeline = c == 'P' || c == 'F' || c == 'D' || c == 'E' || c == 'M' || c == 'W';
                let code = c as u32;
                if !in_pipeline && code >= lo {
                    let better = match best {
                        Some(b) => code < b,
                        None => true,
                    };
                    if better {
                        proof {
                            assert(other_letter_code(banks@, code as nat)) by {
                                assert(bank_letter(banks@[i as int]) == c);
                            }
                        }
                        best = Some(code);
                    }
                }
                i = i + 1;
            }
            match best {
                None => {
                    proof {
                        assert forall|c: nat| lo <= c < 0x110000 implies !other_letter_code(banks@, c) by {
                            if other_letter_code(banks@, c) {
                                let j = choose|j: int|
                                    0 <= j < banks@.len() && bank_letter(#[trigger] banks@[j]) as nat == c
                                        && !pipeline_letter(bank_letter(banks@[j]));
                            }
                        }
                    }
                    break;
                },
                Some(b) => {
                    proof {
                        assert forall|c: nat| lo <= c < b implies !other_letter_code(banks@, c) by {
                            if other_letter_code(banks@, c) {
                                let j = choose|j: int|
                                    0 <= j < banks@.len() && bank_letter(#[trigger] banks@[j]) as nat == c
                                        && !pipeline_letter(bank_letter(banks@[j]));
                            }
                        }
                        lemma_no_other_letters(self.values, banks@, 0, lo as nat, b as nat);
                    }
                    let text = self.dump_letter(banks, b);
                    push_str(&mut s, text.as_str());
                    proof {
                        assert(s@ =~= pipeline + other_banks_text(self.values, banks@, 0, b as nat + 1));
                    }
                    lo = b + 1;
                },
            }
        }
        proof {
            lemma_no_other_letters(self.values, banks@, 0, lo as nat, 0x110000);
            assert(s@ =~= banks_text(self.values, banks@));
        }
        s
    }

    /// The state display: a header that says whether the program halted, stopped on
    /// an error, timed out or is between cycles; the register file; the register
    /// banks (unless testing); the memory; and a footer.
    pub open spec fn dump_text(self) -> Seq<char> {
        let status = self.spec_status();
        let error_name = status_name(
            if self.spec_values()@.dom().contains(seq!['S', 't', 'a', 't']) {
                (self.spec_values()@[seq!['S', 't', 'a', 't']].bits % 256) as u8
            } else {
                255
            },
        );
        state_header(status, self.spec_cycle(), self.spec_timeout()) + registers_text(self.cycle_state().registers)
            + (if self.spec_options()@.test {
            Seq::empty()
        } else {
            banks_text(self.spec_values(), self.spec_program().spec_banks())
        }) + memory_dump(self.spec_memory()@) + state_footer(
            status,
            self.spec_cycle(),
            self.spec_timeout(),
            error_name,
        )
    }

    /// The first line of the state display.
    fn dump_header(&self) -> (r: String)
        ensures
            r@ == state_header(self.spec_status(), self.spec_cycle(), self.spec_timeout()),
    {
        let mut s = String::new();
        let status = self.status_or_default(1);
        if status == 2 {
            push_str(&mut s, "+----------------------- halted in state: ------------------------------+\n");
        } else if status != 0 && status != 1 {
            push_str(&mut s, "+------------------- error caused in state: ----------------------------+\n");
        } else if self.cycle >= self.options.timeout {
            push_str(&mut s, "+------------ timed out after ");
            push_dec_right_aligned(&mut s, self.cycle as u128, 5);
            push_str(&mut s, " cycles in state: -------------------+\n");
        } else {
            push_str(&mut s, "+------------------- between cycles ");
            push_dec_right_aligned(&mut s, self.cycle as u128, 4);
            push_str(&mut s, " and ");
            push_dec_right_aligned(&mut s, self.cycle as u128 + 1, 4);
            push_str(&mut s, " ----------------------+\n");
        }
        proof {
            assert(s@ =~= state_header(self.spec_status(), self.spec_cycle(), self.spec_timeout()));
        }
        s
    }

    /// The last lines of the state display.
    fn dump_footer(&self) -> (r: String)
        ensures
            r@ == state_footer(
                self.spec_status(),
                self.spec_cycle(),
                self.spec_timeout(),
                status_name(
                    if self.spec_values()@.dom().contains(seq!['S', 't', 'a', 't']) {
                        (self.spec_values()@[seq!['S', 't', 'a', 't']].bits % 256) as u8
                    } else {
                        255
                    },
                ),
            ),
    {
        let mut s = String::new();
        let status = self.status_or_default(1);
        let halted = status == 2;
        let error = status != 0 && status != 1 && status != 2;
        let timed_out = self.cycle >= self.options.timeout;
        let done = (status != 1 && status != 0) || timed_out;
        if halted {
            push_str(&mut s, "+--------------------- (end of halted state) ---------------------------+\n");
        } else if error {
            push_str(&mut s, "+-------------------- (end of error state) -----------------------------+\n");
        } else {
            push_str(&mut s, "+-----------------------------------------------------------------------+\n");
        }
        if done {
            push_str(&mut s, "Cycles run: ");
            push_dec(&mut s, self.cycle as u128);
            push_str(&mut s, "\n");
            if !halted && !timed_out {
                push_str(&mut s, "Error code: ");
                push_str(&mut s, self.name_status_y86());
                push_str(&mut s, "\n");
            }
        }
        proof {
            assert(s@ =~= state_footer(
                self.spec_status(),
                self.spec_cycle(),
                self.spec_timeout(),
                status_name(
                    if self.spec_values()@.dom().contains(seq!['S', 't', 'a', 't']) {
                        (self.spec_values()@[seq!['S', 't', 'a', 't']].bits % 256) as u8
                    } else {
                        255
                    },
                ),
            ));
        }
        s
    }

    /// The state: a header that says whether the program halted, stopped on an
    /// error, timed out or is between cycles; the register file; the register banks
    /// (unless testing); the memory; and, when done, the number of cycles run and the
    /// error, if any.
    pub fn dump_y86_str(&self) -> (r: String)
        ensures
            r@ == self.dump_text(),
    {
        let mut s = self.dump_header();
        push_str(&mut s, self.dump_program_registers_y86().as_str());
        if !self.options.test {
            push_str(&mut s, self.dump_custom_registers_y86().as_str());
        }
        push_str(&mut s, self.memory.dump_memory_y86().as_str());
        push_str(&mut s, self.dump_footer().as_str());
        proof {
            assert(s@ =~= self.dump_text());
        }
        s
    }

    /// Writes the state (see `dump_y86_str`) to `out`.
    pub fn dump_y86(&self, out: &mut Vec<u8>) -> (r: Result<(), Error>)
        ensures
            r is Ok,
            final(out)@ == old(out)@ + crate::text::utf8(self.dump_text()),
    {
        let text = self.dump_y86_str();
        append_utf8(out, text.as_str());
        Ok(())
    }
}

} // verus!
