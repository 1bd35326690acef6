//! Checking a program's declarations and assignments, and putting the work of a
//! cycle in an order where each wire is computed before it is read.
use vstd::prelude::*;
use crate::ast::{
    Assignment, ConstDecl, RegisterBankDecl, RegisterDecl, Span, SpannedExpr, Statement, WireDecl, WireValue,
    WireWidth,
};
use crate::errors::{Error, ExprFault};
use crate::eval::{find_close_names_in, lemma_eval_extends, spec_eval, values_valid};
use crate::graph::{Graph, has_edge, is_cycle};
use crate::refs::{names_of, spec_referenced, spec_refs};
use crate::wires::{NameMap, WireValues, WireWidths, str_eq, wire_set};

verus! {

/// One piece of the work of a cycle.
#[derive(Debug)]
pub enum Action {
    /// Computes a wire from an expression, cut to the wire's width.
    Assign(String, SpannedExpr, WireWidth),
    ReadProgramRegister { number: String, out_port: String },
    ReadMemory { is_read: Option<String>, address: String, out_port: String, bytes: u8 },
    /// Writes to the register file; done after all reads.
    WriteProgramRegister { number: String, in_port: String },
    /// Writes to memory; done after all reads.
    WriteMemory { is_write: Option<String>, address: String, in_port: String, bytes: u8 },
    SetStatus { in_wire: String },
}

pub fn copy_name(o: &Option<String>) -> (r: Option<String>)
    ensures
        crate::errors::opt_view(r) == crate::errors::opt_view(*o),
{
    match o {
        Some(s) => Some(s.clone()),
        None => None,
    }
}

/// The wire that an action computes, if it computes one.
pub open spec fn action_writes(a: Action) -> Option<Seq<char>> {
    match a {
        Action::Assign(name, _, _) => Some(name@),
        Action::ReadProgramRegister { out_port, .. } => Some(out_port@),
        Action::ReadMemory { out_port, .. } => Some(out_port@),
        _ => None,
    }
}

/// The wires whose values an action reads.
pub open spec fn action_reads(a: Action) -> Set<Seq<char>> {
    match a {
        Action::Assign(_, e, _) => spec_referenced(e),
        Action::ReadProgramRegister { number, .. } => set![number@],
        Action::ReadMemory { is_read, address, .. } => match is_read {
            Some(bit) => set![bit@, address@],
            None => set![address@],
        },
        Action::WriteProgramRegister { number, in_port } => set![number@, in_port@],
        Action::WriteMemory { is_write, address, in_port, .. } => match is_write {
            Some(bit) => set![bit@, address@, in_port@],
            None => set![address@, in_port@],
        },
        Action::SetStatus { in_wire } => set![in_wire@],
    }
}

/// Carried out in this order, the actions compute each wire before any of them reads
/// it, and no two compute the same wire.
pub open spec fn computed_before_read(actions: Seq<Action>) -> bool {
    &&& forall|i: int, j: int|
        #![trigger actions[i], actions[j]]
        0 <= i < j < actions.len() && action_writes(actions[j]) is Some ==> !action_reads(actions[i]).contains(
            action_writes(actions[j])->0,
        )
    &&& forall|i: int, j: int|
        #![trigger actions[i], actions[j]]
        0 <= i < j < actions.len() && action_writes(actions[i]) is Some ==> action_writes(actions[j])
            != action_writes(actions[i])
}

/// Each wire that an action reads and that an action computes is computed by an earlier
/// action: carried out in order, the actions read only values of this cycle's wires that
/// are already computed.
pub open spec fn produced_before_read(actions: Seq<Action>) -> bool {
    forall|x: int, j: int|
        #![trigger actions[x], actions[j]]
        0 <= x < actions.len() && 0 <= j < actions.len() && action_writes(actions[j]) is Some && action_reads(
            actions[x],
        ).contains(action_writes(actions[j])->0) ==> j < x
}

/// Once an action that computes no wire (a write to the register file or to memory, or
/// the status) comes, every action after it computes no wire either: those writes come
/// after all the wires of the cycle are computed.
pub open spec fn writes_last(actions: Seq<Action>) -> bool {
    forall|i: int, j: int|
        #![trigger actions[i], actions[j]]
        0 <= i < j < actions.len() && action_writes(actions[i]) is None ==> action_writes(actions[j]) is None
}

impl Action {
    /// An action that can be carried out: its expression is well formed and its
    /// widths are ones a wire can have.
    pub open spec fn wf(self) -> bool {
        match self {
            Action::Assign(_, e, w) => e.well_formed() && w.valid(),
            Action::ReadMemory { bytes, .. } => 1 <= bytes <= 16,
            Action::WriteMemory { bytes, .. } => 1 <= bytes <= 16,
            _ => true,
        }
    }

    /// The wire that the action computes, if it computes one.
    pub fn written_wire(&self) -> (r: Option<&String>)
        ensures
            match r {
                Some(w) => action_writes(*self) == Some(w@),
                None => action_writes(*self) is None,
            },
    {
        match self {
            Action::Assign(name, _, _) => Some(name),
            Action::ReadProgramRegister { out_port, .. } => Some(out_port),
            Action::ReadMemory { out_port, .. } => Some(out_port),
            _ => None,
        }
    }

    /// The wires whose values the action reads.
    pub fn read_wires(&self) -> (r: Vec<String>)
        ensures
            names_of(r@).to_set() == action_reads(*self),
    {
        let mut r: Vec<String> = Vec::new();
        match self {
            Action::Assign(_, e, _) => {
                return e.referenced_wires();
            },
            Action::ReadProgramRegister { number, .. } => {
                r.push(number.clone());
            },
            Action::ReadMemory { is_read, address, .. } => {
                match is_read {
                    Some(bit) => r.push(bit.clone()),
                    None => {},
                }
                r.push(address.clone());
            },
            Action::WriteProgramRegister { number, in_port } => {
                r.push(number.clone());
                r.push(in_port.clone());
            },
            Action::WriteMemory { is_write, address, in_port, .. } => {
                match is_write {
                    Some(bit) => r.push(bit.clone()),
                    None => {},
                }
                r.push(address.clone());
                r.push(in_port.clone());
            },
            Action::SetStatus { in_wire } => {
                r.push(in_wire.clone());
            },
        }
        proof {
            let n = names_of(r@);
            assert forall|w: Seq<char>| n.to_set().contains(w) <==> action_reads(*self).contains(w) by {
                if n.to_set().contains(w) {
                    let j = n.index_of(w);
                    assert(n[j] == w);
                }
                if action_reads(*self).contains(w) {
                    if n.len() >= 1 && n[0] == w {
                    } else if n.len() >= 2 && n[1] == w {
                    } else if n.len() >= 3 && n[2] == w {
                    } else {
                        assert(false);
                    }
                }
            }
            assert(n.to_set() =~= action_reads(*self));
        }
        r
    }

    pub fn copy(&self) -> (r: Action)
        ensures
            self.wf() ==> r.wf(),
            action_writes(r) == action_writes(*self),
            action_reads(r) == action_reads(*self),
            r is Assign <==> self is Assign,
            *self matches Action::Assign(n, e, w) ==> (r matches Action::Assign(n2, e2, w2) && n2@ == n@ && e2.same_as(e)
                && w2 == w),
    {
        match self {
            Action::Assign(name, e, w) => Action::Assign(name.clone(), e.copy(), *w),
            Action::ReadProgramRegister { number, out_port } => Action::ReadProgramRegister {
                number: number.clone(),
                out_port: out_port.clone(),
            },
            Action::ReadMemory { is_read, address, out_port, bytes } => Action::ReadMemory {
                is_read: copy_name(is_read),
                address: address.clone(),
                out_port: out_port.clone(),
                bytes: *bytes,
            },
            Action::WriteProgramRegister { number, in_port } => Action::WriteProgramRegister {
                number: number.clone(),
                in_port: in_port.clone(),
            },
            Action::WriteMemory { is_write, address, in_port, bytes } => Action::WriteMemory {
                is_write: copy_name(is_write),
                address: address.clone(),
                in_port: in_port.clone(),
                bytes: *bytes,
            },
            Action::SetStatus { in_wire } => Action::SetStatus { in_wire: in_wire.clone() },
        }
    }
}

/// A piece of fixed functionality: wires it reads, the wire it sets, if any, and
/// what it does.
#[derive(Debug)]
pub struct FixedFunction {
    pub name: String,
    pub in_wires: Vec<WireDecl>,
    pub out_wire: Option<WireDecl>,
    pub action: Action,
    /// Whether every program must set its inputs.
    pub mandatory: bool,
}

impl FixedFunction {
    /// One of the piece's inputs is the wire `w`.
    pub open spec fn has_input(self, w: Seq<char>) -> bool {
        exists|i: int| 0 <= i < self.in_wires@.len() && (#[trigger] self.in_wires@[i]).name@ == w
    }

    /// The piece can be carried out: its widths are ones a wire can have, its action
    /// can be carried out, computes its output wire and no other, and reads only its
    /// inputs.
    pub open spec fn wf(self) -> bool {
        &&& forall|i: int| 0 <= i < self.in_wires@.len() ==> (#[trigger] self.in_wires@[i]).width.valid()
        &&& (self.out_wire matches Some(d) ==> d.width.valid())
        &&& self.action.wf()
        &&& action_writes(self.action) == match self.out_wire {
            Some(d) => Some(d.name@),
            None => None::<Seq<char>>,
        }
        &&& forall|w: Seq<char>| #[trigger] action_reads(self.action).contains(w) ==> self.has_input(w)
    }

    fn read_port(number: &str, output: &str) -> (r: FixedFunction)
        ensures
            r.wf(),
            r.name@ == "register file read port"@,
            input_decls(r) == seq![(number@, WireWidth::Bits(4))],
            output_decl(r) == Some((output@, WireWidth::Bits(64))),
            r.action matches Action::ReadProgramRegister { number: n, out_port: o } && n@ == number@ && o@ == output@,
            !r.mandatory,
    {
        let mut in_wires: Vec<WireDecl> = Vec::new();
        in_wires.push(WireDecl::synthetic(number, 4));
        let r = FixedFunction {
            name: String::from_str("register file read port"),
            in_wires,
            out_wire: Some(WireDecl::synthetic(output, 64)),
            action: Action::ReadProgramRegister {
                number: String::from_str(number),
                out_port: String::from_str(output),
            },
            mandatory: false,
        };
        assert(r.in_wires@[0].name@ == number@);
        r
    }

    fn write_port(number: &str, input: &str) -> (r: FixedFunction)
        ensures
            r.wf(),
            r.name@ == "register file write port"@,
            input_decls(r) == seq![(number@, WireWidth::Bits(4)), (input@, WireWidth::Bits(64))],
            output_decl(r) == None::<(Seq<char>, WireWidth)>,
            r.action matches Action::WriteProgramRegister { number: n, in_port: i } && n@ == number@ && i@ == input@,
            !r.mandatory,
    {
        let mut in_wires: Vec<WireDecl> = Vec::new();
        in_wires.push(WireDecl::synthetic(number, 4));
        in_wires.push(WireDecl::synthetic(input, 64));
        let r = FixedFunction {
            name: String::from_str("register file write port"),
            in_wires,
            out_wire: None,
            action: Action::WriteProgramRegister { number: String::from_str(number), in_port: String::from_str(input) },
            mandatory: false,
        };
        assert(r.in_wires@[0].name@ == number@);
        assert(r.in_wires@[1].name@ == input@);
        r
    }
}

/// The names and widths of the inputs of a piece of fixed functionality.
pub open spec fn input_decls(f: FixedFunction) -> Seq<(Seq<char>, WireWidth)> {
    f.in_wires@.map_values(|d: WireDecl| (d.name@, d.width))
}

/// A piece of fixed functionality with one input has that input as its only wire.
proof fn lemma_sole_input(f: FixedFunction, name: Seq<char>, w: WireWidth)
    requires
        input_decls(f) == seq![(name, w)],
    ensures
        f.in_wires@.len() == 1,
        f.in_wires@[0].name@ == name,
{
    assert(input_decls(f).len() == f.in_wires@.len());
    assert(input_decls(f)[0] == (f.in_wires@[0].name@, f.in_wires@[0].width));
}

/// The name and width of the output of a piece of fixed functionality, if it has one.
pub open spec fn output_decl(f: FixedFunction) -> Option<(Seq<char>, WireWidth)> {
    match f.out_wire {
        Some(d) => Some((d.name@, d.width)),
        None => None,
    }
}

/// The fixed functionality of the Y86-64 processor: the status, the instruction
/// and data memories, and the register file.
pub fn y86_fixed_functions() -> (r: Vec<FixedFunction>)
    ensures
        forall|i: int| 0 <= i < r@.len() ==> (#[trigger] r@[i]).wf(),
        r@.len() == 8,
        r@[0].name@ == "processor status"@,
        input_decls(r@[0]) == seq![("Stat"@, WireWidth::Bits(3))],
        output_decl(r@[0]) == None::<(Seq<char>, WireWidth)>,
        r@[0].action matches Action::SetStatus { in_wire } && in_wire@ == "Stat"@,
        r@[0].mandatory,
        r@[1].name@ == "instruction memory"@,
        input_decls(r@[1]) == seq![("pc"@, WireWidth::Bits(64))],
        output_decl(r@[1]) == Some(("i10bytes"@, WireWidth::Bits(80))),
        r@[1].action matches Action::ReadMemory { is_read: None, address, out_port, bytes: 10 } && address@ == "pc"@
            && out_port@ == "i10bytes"@,
        r@[1].mandatory,
        r@[2].name@ == "data memory read"@,
        input_decls(r@[2]) == seq![("mem_addr"@, WireWidth::Bits(64)), ("mem_readbit"@, WireWidth::Bits(1))],
        output_decl(r@[2]) == Some(("mem_output"@, WireWidth::Bits(64))),
        r@[2].action matches Action::ReadMemory { is_read: Some(bit), address, out_port, bytes: 8 } && bit@
            == "mem_readbit"@ && address@ == "mem_addr"@ && out_port@ == "mem_output"@,
        !r@[2].mandatory,
        r@[3].name@ == "data memory write"@,
        input_decls(r@[3]) == seq![
            ("mem_addr"@, WireWidth::Bits(64)),
            ("mem_input"@, WireWidth::Bits(64)),
            ("mem_writebit"@, WireWidth::Bits(1)),
        ],
        output_decl(r@[3]) == None::<(Seq<char>, WireWidth)>,
        r@[3].action matches Action::WriteMemory { is_write: Some(bit), address, in_port, bytes: 8 } && bit@
            == "mem_writebit"@ && address@ == "mem_addr"@ && in_port@ == "mem_input"@,
        !r@[3].mandatory,
        r@[4].name@ == "register file read port"@,
        input_decls(r@[4]) == seq![("reg_srcA"@, WireWidth::Bits(4))],
        output_decl(r@[4]) == Some(("reg_outputA"@, WireWidth::Bits(64))),
        r@[4].action matches Action::ReadProgramRegister { number, out_port } && number@ == "reg_srcA"@ && out_port@
            == "reg_outputA"@,
        r@[5].name@ == "register file read port"@,
        input_decls(r@[5]) == seq![("reg_srcB"@, WireWidth::Bits(4))],
        output_decl(r@[5]) == Some(("reg_outputB"@, WireWidth::Bits(64))),
        r@[5].action matches Action::ReadProgramRegister { number, out_port } && number@ == "reg_srcB"@ && out_port@
            == "reg_outputB"@,
        r@[6].name@ == "register file write port"@,
        input_decls(r@[6]) == seq![("reg_dstE"@, WireWidth::Bits(4)), ("reg_inputE"@, WireWidth::Bits(64))],
        output_decl(r@[6]) == None::<(Seq<char>, WireWidth)>,
        r@[6].action matches Action::WriteProgramRegister { number, in_port } && number@ == "reg_dstE"@ && in_port@
            == "reg_inputE"@,
        r@[7].name@ == "register file write port"@,
        input_decls(r@[7]) == seq![("reg_dstM"@, WireWidth::Bits(4)), ("reg_inputM"@, WireWidth::Bits(64))],
        output_decl(r@[7]) == None::<(Seq<char>, WireWidth)>,
        r@[7].action matches Action::WriteProgramRegister { number, in_port } && number@ == "reg_dstM"@ && in_port@
            == "reg_inputM"@,
        forall|i: int| 4 <= i < 8 ==> !(#[trigger] r@[i]).mandatory,
{
    let mut r: Vec<FixedFunction> = Vec::new();
    let mut status_in: Vec<WireDecl> = Vec::new();
    status_in.push(WireDecl::synthetic("Stat", 3));
    let status = FixedFunction {
        name: String::from_str("processor status"),
        in_wires: status_in,
        out_wire: None,
        action: Action::SetStatus { in_wire: String::from_str("Stat") },
        mandatory: true,
    };
    assert(status.in_wires@[0].name@ == "Stat"@);
    r.push(status);
    let mut imem_in: Vec<WireDecl> = Vec::new();
    imem_in.push(WireDecl::synthetic("pc", 64));
    let imem = FixedFunction {
        name: String::from_str("instruction memory"),
        in_wires: imem_in,
        out_wire: Some(WireDecl::synthetic("i10bytes", 80)),
        action: Action::ReadMemory {
            is_read: None,
            address: String::from_str("pc"),
            out_port: String::from_str("i10bytes"),
            bytes: 10,
        },
        mandatory: true,
    };
    assert(imem.in_wires@[0].name@ == "pc"@);
    r.push(imem);
    let mut read_in: Vec<WireDecl> = Vec::new();
    read_in.push(WireDecl::synthetic("mem_addr", 64));
    read_in.push(WireDecl::synthetic("mem_readbit", 1));
    let dmem_read = FixedFunction {
        name: String::from_str("data memory read"),
        in_wires: read_in,
        out_wire: Some(WireDecl::synthetic("mem_output", 64)),
        action: Action::ReadMemory {
            is_read: Some(String::from_str("mem_readbit")),
            address: String::from_str("mem_addr"),
            out_port: String::from_str("mem_output"),
            bytes: 8,
        },
        mandatory: false,
    };
    assert(dmem_read.in_wires@[0].name@ == "mem_addr"@);
    assert(dmem_read.in_wires@[1].name@ == "mem_readbit"@);
    r.push(dmem_read);
    let mut write_in: Vec<WireDecl> = Vec::new();
    write_in.push(WireDecl::synthetic("mem_addr", 64));
    write_in.push(WireDecl::synthetic("mem_input", 64));
    write_in.push(WireDecl::synthetic("mem_writebit", 1));
    let dmem_write = FixedFunction {
        name: String::from_str("data memory write"),
        in_wires: write_in,
        out_wire: None,
        action: Action::WriteMemory {
            is_write: Some(String::from_str("mem_writebit")),
            address: String::from_str("mem_addr"),
            in_port: String::from_str("mem_input"),
            bytes: 8,
        },
        mandatory: false,
    };
    assert(dmem_write.in_wires@[0].name@ == "mem_addr"@);
    assert(dmem_write.in_wires@[1].name@ == "mem_input"@);
    assert(dmem_write.in_wires@[2].name@ == "mem_writebit"@);
    r.push(dmem_write);
    r.push(FixedFunction::read_port("reg_srcA", "reg_outputA"));
    r.push(FixedFunction::read_port("reg_srcB", "reg_outputB"));
    r.push(FixedFunction::write_port("reg_dstE", "reg_inputE"));
    r.push(FixedFunction::write_port("reg_dstM", "reg_inputM"));
    r
}

/// A bank of registers: each register has an input wire, read at the end of a
/// cycle, and an output wire, holding its value during the cycle.
#[derive(Debug)]
pub struct RegisterBank {
    pub label: String,
    /// Input name, output name and width of each register.
    pub signals: Vec<(String, String, WireWidth)>,
    /// Where each register was declared.
    pub spans: Vec<Span>,
    /// The value of each register at the start and after a bubble, by output name.
    pub defaults: WireValues,
    pub stall_signal: String,
    pub bubble_signal: String,
}

impl RegisterBank {
    pub open spec fn wf(self) -> bool {
        &&& values_valid(self.defaults)
        &&& forall|i: int| 0 <= i < self.signals@.len() ==> (#[trigger] self.signals@[i]).2.valid()
    }
}

/// The input and output of a register are set to its default, if it has one,
/// through the state `mid`.
pub open spec fn default_copied(
    before: WireValues,
    mid: WireValues,
    after: WireValues,
    signal: (String, String, WireWidth),
    defaults: WireValues,
) -> bool {
    if defaults@.dom().contains(signal.1@) {
        wire_set(before, signal.0@, defaults@[signal.1@], mid) && wire_set(mid, signal.1@, defaults@[signal.1@], after)
    } else {
        mid == before && after == before
    }
}

/// `states` is a run of setting up a bank before the first cycle: two states for
/// each register, then the bubble signal false, then the stall signal false.
pub open spec fn bank_initial_trace(states: Seq<WireValues>, bank: RegisterBank) -> bool {
    let n = bank.signals@.len() as int;
    let f = WireValue { bits: 0, width: WireWidth::Bits(1) };
    &&& states.len() == 2 * n + 3
    &&& forall|k: int|
        #![trigger bank.signals@[k]]
        0 <= k < n ==> default_copied(states[2 * k], states[2 * k + 1], states[2 * k + 2], bank.signals@[k], bank.defaults)
    &&& wire_set(states[2 * n], bank.bubble_signal@, f, states[2 * n + 1])
    &&& wire_set(states[2 * n + 1], bank.stall_signal@, f, states[2 * n + 2])
}

/// A bank's wires before the first cycle: each register's input and output at its
/// default, then its bubble and stall signals false.
pub open spec fn bank_initial(before: WireValues, bank: RegisterBank, after: WireValues) -> bool {
    exists|states: Seq<WireValues>| #[trigger] bank_initial_trace(states, bank) && states[0] == before && states.last() == after
}

/// `states` is a run of setting up the banks before the first cycle, one after
/// another.
pub open spec fn initial_trace(states: Seq<WireValues>, banks: Seq<RegisterBank>) -> bool {
    &&& states.len() == banks.len() + 1
    &&& forall|k: int| #![trigger banks[k]] 0 <= k < banks.len() ==> bank_initial(states[k], banks[k], states[k + 1])
}

/// Whether a list of names holds a name.
pub fn contains_name(v: &Vec<String>, name: &str) -> (r: bool)
    ensures
        r == names_of(v@).contains(name@),
{
    let mut i: usize = 0;
    while i < v.len()
        invariant
            i <= v@.len(),
            forall|j: int| 0 <= j < i ==> v@[j]@ != name@,
        decreases v@.len() - i,
    {
        if str_eq(v[i].as_str(), name) {
            assert(names_of(v@)[i as int] == v@[i as int]@);
            return true;
        }
        i = i + 1;
    }
    proof {
        if names_of(v@).contains(name@) {
            let j = names_of(v@).index_of(name@);
            assert(v@[j]@ == name@);
        }
    }
    false
}

/// Adds a name to a list unless the list holds it.
fn add_name(v: &mut Vec<String>, name: &str)
    ensures
        forall|n: Seq<char>| #[trigger] names_of(final(v)@).contains(n) <==> (names_of(old(v)@).contains(n) || n == name@),
{
    if !contains_name(v, name) {
        let ghost before = names_of(v@);
        v.push(String::from_str(name));
        proof {
            assert(names_of(v@) =~= before.push(name@));
            assert forall|n: Seq<char>| #[trigger] names_of(v@).contains(n) <==> (before.contains(n) || n == name@) by {
                if names_of(v@).contains(n) {
                    let j = names_of(v@).index_of(n);
                    if j < before.len() {
                        assert(before[j] == n);
                    }
                }
                if before.contains(n) {
                    let j = before.index_of(n);
                    assert(names_of(v@)[j] == n);
                }
                if n == name@ {
                    assert(names_of(v@)[before.len() as int] == n);
                }
            }
        }
    }
}

/// A copy of a list of names.
pub fn copy_names(v: &Vec<String>) -> (r: Vec<String>)
    ensures
        names_of(r@) == names_of(v@),
{
    let mut r: Vec<String> = Vec::new();
    let mut i: usize = 0;
    while i < v.len()
        invariant
            i <= v@.len(),
            r@.len() == i,
            forall|j: int| 0 <= j < i ==> (#[trigger] r@[j])@ == v@[j]@,
        decreases v@.len() - i,
    {
        r.push(v[i].clone());
        i = i + 1;
    }
    assert(names_of(r@) =~= names_of(v@));
    r
}

/// The position of a name in a list of names.
pub fn position_of(v: &Vec<String>, name: &str) -> (r: Option<usize>)
    ensures
        match r {
            Some(i) => i < v@.len() && v@[i as int]@ == name@,
            None => !names_of(v@).contains(name@),
        },
{
    let mut i: usize = 0;
    while i < v.len()
        invariant
            i <= v@.len(),
            forall|j: int| 0 <= j < i ==> v@[j]@ != name@,
        decreases v@.len() - i,
    {
        if str_eq(v[i].as_str(), name) {
            return Some(i);
        }
        i = i + 1;
    }
    proof {
        if names_of(v@).contains(name@) {
            let j = names_of(v@).index_of(name@);
            assert(v@[j]@ == name@);
        }
    }
    None
}

/// A name with a one-letter prefix and `_`: the wire of a register in a bank.
pub fn prefixed(prefix: char, name: &str) -> (r: String)
    ensures
        r@ == seq![prefix, '_'] + name@,
{
    let mut r = String::new();
    crate::text::push_char(&mut r, prefix);
    crate::text::push_char(&mut r, '_');
    crate::text::push_str(&mut r, name);
    assert(r@ =~= seq![prefix, '_'] + name@);
    r
}

/// A name after a word: the stall and bubble signals of a bank.
pub fn signal_name(word: &str, letter: char) -> (r: String)
    ensures
        r@ == word@.push(letter),
{
    let mut r = String::from_str(word);
    crate::text::push_char(&mut r, letter);
    r
}

/// Moves the items of one list to the end of another.
fn append_all<T>(dst: &mut Vec<T>, src: Vec<T>)
    ensures
        final(dst)@ == old(dst)@ + src@,
{
    let mut src = src;
    dst.append(&mut src);
}

/// The assignments of a list of statements, in order.
pub open spec fn statement_assignments(sts: Seq<Statement>) -> Seq<Assignment>
    decreases sts.len(),
{
    if sts.len() == 0 {
        Seq::empty()
    } else {
        (match sts[0] {
            Statement::Assignments(xs) => xs@,
            _ => Seq::empty(),
        }) + statement_assignments(sts.drop_first())
    }
}

/// The wire declarations of a list of statements, in order.
pub open spec fn statement_wire_decls(sts: Seq<Statement>) -> Seq<WireDecl>
    decreases sts.len(),
{
    if sts.len() == 0 {
        Seq::empty()
    } else {
        (match sts[0] {
            Statement::WireDecls(ds) => ds@,
            _ => Seq::empty(),
        }) + statement_wire_decls(sts.drop_first())
    }
}

/// The constant declarations of a list of statements, in order.
pub open spec fn statement_const_decls(sts: Seq<Statement>) -> Seq<ConstDecl>
    decreases sts.len(),
{
    if sts.len() == 0 {
        Seq::empty()
    } else {
        (match sts[0] {
            Statement::ConstDecls(ds) => ds@,
            _ => Seq::empty(),
        }) + statement_const_decls(sts.drop_first())
    }
}

/// The register banks declared in a list of statements, in order.
pub open spec fn statement_bank_decls(sts: Seq<Statement>) -> Seq<RegisterBankDecl>
    decreases sts.len(),
{
    if sts.len() == 0 {
        Seq::empty()
    } else {
        (match sts[0] {
            Statement::RegisterBankDecl(b) => seq![b],
            _ => Seq::empty(),
        }) + statement_bank_decls(sts.drop_first())
    }
}

/// Every wire declared with `wire` is set by an assignment.
pub open spec fn declared_wires_assigned(decls: Seq<WireDecl>, assigns: Seq<Assignment>) -> bool {
    forall|i: int|
        0 <= i < decls.len() ==> exists|a: int|
            0 <= a < assigns.len() && #[trigger] assigns_name(assigns[a], (#[trigger] decls[i]).name@)
}

/// The declarations, assignments and register banks of a list of statements.
fn collect(statements: Vec<Statement>) -> (r: (Vec<ConstDecl>, Vec<WireDecl>, Vec<Assignment>, Vec<RegisterBankDecl>))
    ensures
        r.1@ == statement_wire_decls(statements@),
        r.2@ == statement_assignments(statements@),
        r.3@ == statement_bank_decls(statements@),
        r.0@ == statement_const_decls(statements@),
{
    let ghost all = statements@;
    let mut consts: Vec<ConstDecl> = Vec::new();
    let mut wires: Vec<WireDecl> = Vec::new();
    let mut assigns: Vec<Assignment> = Vec::new();
    let mut banks: Vec<RegisterBankDecl> = Vec::new();
    let mut statements = statements;
    assert(assigns@ + statement_assignments(statements@) =~= statement_assignments(all));
    assert(wires@ + statement_wire_decls(statements@) =~= statement_wire_decls(all));
    assert(banks@ + statement_bank_decls(statements@) =~= statement_bank_decls(all));
    assert(consts@ + statement_const_decls(statements@) =~= statement_const_decls(all));
    while statements.len() > 0
        invariant
            assigns@ + statement_assignments(statements@) == statement_assignments(all),
            wires@ + statement_wire_decls(statements@) == statement_wire_decls(all),
            banks@ + statement_bank_decls(statements@) == statement_bank_decls(all),
            consts@ + statement_const_decls(statements@) == statement_const_decls(all),
        decreases statements@.len(),
    {
        let ghost before = statements@;
        let ghost before_assigns = assigns@;
        let ghost before_wires = wires@;
        let ghost before_banks = banks@;
        let ghost before_consts = consts@;
        let first = statements.remove(0);
        assert(statements@ =~= before.drop_first());
        match first {
            Statement::ConstDecls(ds) => append_all(&mut consts, ds),
            Statement::WireDecls(ds) => append_all(&mut wires, ds),
            Statement::Assignments(xs) => append_all(&mut assigns, xs),
            Statement::RegisterBankDecl(b) => banks.push(b),
            Statement::Error => {},
        }
        assert(assigns@ + statement_assignments(statements@) =~= before_assigns + statement_assignments(before));
        assert(wires@ + statement_wire_decls(statements@) =~= before_wires + statement_wire_decls(before));
        assert(banks@ + statement_bank_decls(statements@) =~= before_banks + statement_bank_decls(before));
        assert(consts@ + statement_const_decls(statements@) =~= before_consts + statement_const_decls(before));
    }
    assert(assigns@ =~= statement_assignments(all));
    assert(wires@ =~= statement_wire_decls(all));
    assert(banks@ =~= statement_bank_decls(all));
    assert(consts@ =~= statement_const_decls(all));
    (consts, wires, assigns, banks)
}

/// The expressions of constants, assignments and register defaults are well formed.
pub open spec fn expressions_well_formed(
    consts: Seq<ConstDecl>,
    assigns: Seq<Assignment>,
    banks: Seq<RegisterBankDecl>,
) -> bool {
    &&& forall|i: int| 0 <= i < consts.len() ==> (#[trigger] consts[i]).value.well_formed()
    &&& forall|i: int| 0 <= i < assigns.len() ==> (#[trigger] assigns[i]).value.well_formed()
    &&& forall|i: int, j: int|
        0 <= i < banks.len() && 0 <= j < banks[i].registers@.len() ==> (#[trigger] banks[i].registers@[j]).default.well_formed()
    &&& forall|i: int, j: int|
        0 <= i < banks.len() && 0 <= j < banks[i].registers@.len() ==> (#[trigger] banks[i].registers@[j]).width.valid()
}

/// The error for an expression that holds a syntax error; the parser reports those
/// before a program is built.
fn malformed(span: Span) -> (r: Error)
    ensures
        r matches Error::InternalParserErrorNear(s, m) && s == span && m@ == "expression with a syntax error"@,
{
    Error::InternalParserErrorNear(span, String::from_str("expression with a syntax error"))
}

/// Checks that every expression can be evaluated.
fn check_expressions(consts: &Vec<ConstDecl>, assigns: &Vec<Assignment>, banks: &Vec<RegisterBankDecl>) -> (r: Result<(), Error>)
    ensures
        r is Ok <==> expressions_well_formed(consts@, assigns@, banks@),
        r matches Err(e) ==> e is InternalParserErrorNear || e is InvalidWireWidth,
{
    let mut i: usize = 0;
    while i < consts.len()
        invariant
            i <= consts@.len(),
            forall|k: int| 0 <= k < i ==> (#[trigger] consts@[k]).value.well_formed(),
        decreases consts@.len() - i,
    {
        if !consts[i].value.is_well_formed() {
            return Err(malformed(consts[i].value.span));
        }
        i = i + 1;
    }
    let mut i: usize = 0;
    while i < assigns.len()
        invariant
            i <= assigns@.len(),
            forall|k: int| 0 <= k < i ==> (#[trigger] assigns@[k]).value.well_formed(),
        decreases assigns@.len() - i,
    {
        if !assigns[i].value.is_well_formed() {
            return Err(malformed(assigns[i].value.span));
        }
        i = i + 1;
    }
    let mut i: usize = 0;
    while i < banks.len()
        invariant
            i <= banks@.len(),
            forall|a: int, b: int|
                0 <= a < i && 0 <= b < banks@[a].registers@.len() ==> (#[trigger] banks@[a].registers@[b]).default.well_formed(),
            forall|a: int, b: int|
                0 <= a < i && 0 <= b < banks@[a].registers@.len() ==> (#[trigger] banks@[a].registers@[b]).width.valid(),
        decreases banks@.len() - i,
    {
        let mut j: usize = 0;
        while j < banks[i].registers.len()
            invariant
                i < banks@.len(),
                j <= banks@[i as int].registers@.len(),
                forall|b: int| 0 <= b < j ==> (#[trigger] banks@[i as int].registers@[b]).default.well_formed(),
                forall|b: int| 0 <= b < j ==> (#[trigger] banks@[i as int].registers@[b]).width.valid(),
            decreases banks@[i as int].registers@.len() - j,
        {
            let reg = &banks[i].registers[j];
            if !reg.default.is_well_formed() {
                return Err(malformed(reg.default.span));
            }
            if !reg.width.valid_width() {
                return Err(Error::InvalidWireWidth(reg.span));
            }
            j = j + 1;
        }
        i = i + 1;
    }
    Ok(())
}

/// Whether a register bank name is two characters: a lowercase letter, the prefix
/// of the input wires, and an uppercase letter, the prefix of the outputs.
pub fn bank_prefixes(name: &str) -> (r: Option<(char, char)>)
    ensures
        r matches Some((i, o)) ==> name@ == seq![i, o],
        r is Some <==> (name@.len() == 2 && crate::lexer::char_is_lowercase(name@[0])
            && crate::lexer::char_is_uppercase(name@[1])),
{
    let chars = crate::text::chars_of(name);
    if chars.len() != 2 {
        return None;
    }
    let i = chars[0];
    let o = chars[1];
    if crate::lexer::is_lowercase(i) && crate::lexer::is_uppercase(o) {
        assert(chars@ =~= seq![i, o]);
        Some((i, o))
    } else {
        None
    }
}

/// The names that the program declares as wires, by kind of declaration.
pub struct Declared {
    /// Widths of all wires: fixed functionality, declared wires, registers, stall
    /// and bubble signals.
    pub widths: WireWidths,
    /// Declared wires and where.
    pub wire_spans: NameMap<Span>,
    /// Inputs of registers and where the register is declared.
    pub register_inputs: NameMap<Span>,
    /// Outputs of registers and where the register is declared.
    pub register_outputs: NameMap<Span>,
    /// Stall and bubble signals.
    pub controls: Vec<String>,
    /// Wires of fixed functionality, with the position of the piece.
    pub builtin: NameMap<usize>,
    /// Outputs of fixed functionality, with the position of the piece.
    pub builtin_outputs: NameMap<usize>,
    pub banks: Vec<RegisterBank>,
}

impl Declared {
    pub open spec fn wf(self) -> bool {
        &&& forall|k: Seq<char>| #[trigger] self.widths@.dom().contains(k) ==> self.widths@[k].valid()
        &&& forall|i: int| 0 <= i < self.banks@.len() ==> (#[trigger] self.banks@[i]).wf()
    }
}

/// The output wire of the fixed functionality has the name.
pub open spec fn out_wire_named(f: FixedFunction, n: Seq<char>) -> bool {
    f.out_wire matches Some(d) && d.name@ == n
}

/// A wire of the program has the name: an input or output of fixed functionality, a
/// declared wire, the input or output of a register of a well-named bank, or a
/// bank's stall or bubble signal.
pub open spec fn declared_name(
    wires: Seq<WireDecl>,
    banks: Seq<RegisterBankDecl>,
    fixed: Seq<FixedFunction>,
    n: Seq<char>,
) -> bool {
    ||| exists|f: int, j: int|
        0 <= f < fixed.len() && 0 <= j < fixed[f].in_wires@.len() && (#[trigger] fixed[f].in_wires@[j]).name@ == n
    ||| exists|f: int| 0 <= f < fixed.len() && out_wire_named(#[trigger] fixed[f], n)
    ||| exists|i: int| 0 <= i < wires.len() && (#[trigger] wires[i]).name@ == n
    ||| exists|i: int| 0 <= i < banks.len() && bank_declares(#[trigger] banks[i], n)
}

/// The bank's name is a lowercase and an uppercase letter.
pub open spec fn well_named(b: RegisterBankDecl) -> bool {
    b.name@.len() == 2 && crate::lexer::char_is_lowercase(b.name@[0]) && crate::lexer::char_is_uppercase(b.name@[1])
}

/// Register `j` of a bank as the bank declaration gives it: its input wire is named
/// with the bank's lowercase letter and its output with the uppercase one (`x_a`,
/// `X_a`); its width and place are the declared ones; its default is its expression's
/// value over the constants, cut to its width.
pub open spec fn register_from_decl(b: RegisterBank, d: RegisterBankDecl, constants: WireValues, j: int) -> bool {
    let r = d.registers@[j];
    let out = seq![d.name@[1], '_'] + r.name@;
    &&& b.signals@[j].0@ == seq![d.name@[0], '_'] + r.name@
    &&& b.signals@[j].1@ == out
    &&& b.signals@[j].2 == r.width
    &&& b.spans@[j] == r.span
    &&& b.defaults@.dom().contains(out)
    &&& spec_eval(r.default, constants@, constants.keys()) matches Ok(v) && b.defaults@[out] == v.spec_as_width(
        r.width,
    )
}

/// A bank of the program as its declaration gives it: its label is the declared name,
/// it has the declared registers in order, a default for each register's output and no
/// other, and the stall and bubble signals named with its uppercase letter.
pub open spec fn bank_from_decl(b: RegisterBank, d: RegisterBankDecl, constants: WireValues) -> bool {
    &&& b.label@ == d.name@
    &&& d.name@.len() == 2
    &&& b.signals@.len() == d.registers@.len()
    &&& b.spans@.len() == d.registers@.len()
    &&& forall|j: int| 0 <= j < d.registers@.len() ==> #[trigger] register_from_decl(b, d, constants, j)
    &&& forall|n: Seq<char>|
        #[trigger] b.defaults@.dom().contains(n) ==> exists|j: int|
            0 <= j < d.registers@.len() && n == seq![d.name@[1], '_'] + (#[trigger] d.registers@[j]).name@
    &&& b.stall_signal@ == "stall_"@.push(d.name@[1])
    &&& b.bubble_signal@ == "bubble_"@.push(d.name@[1])
}

/// Adding the default of register `j` to the defaults of the registers before it keeps
/// theirs: its output's name is new, since its name is.
proof fn lemma_registers_extend(
    regs: Seq<RegisterDecl>,
    j: int,
    ip: char,
    op: char,
    rn0: Seq<String>,
    rn1: Seq<String>,
    d0: Map<Seq<char>, WireValue>,
    d1: Map<Seq<char>, WireValue>,
)
    requires
        0 <= j < regs.len(),
        names_of(rn0) == Seq::new(j as nat, |x: int| regs[x].name@),
        !names_of(rn0).contains(regs[j].name@),
        rn1 == rn0.push(regs[j].name),
        forall|n: Seq<char>|
            #[trigger] d0.dom().contains(n) ==> exists|x: int| 0 <= x < j && n == seq![op, '_'] + (#[trigger] regs[x]).name@,
        exists|v: WireValue| d1 == d0.insert(seq![op, '_'] + regs[j].name@, v),
    ensures
        names_of(rn1) == Seq::new((j + 1) as nat, |x: int| regs[x].name@),
        forall|x: int| 0 <= x < j ==> seq![op, '_'] + (#[trigger] regs[x]).name@ != seq![op, '_'] + regs[j].name@,
        !d0.dom().contains(seq![op, '_'] + regs[j].name@),
        forall|n: Seq<char>| #[trigger] d0.dom().contains(n) ==> d1.dom().contains(n) && d1[n] == d0[n],
{
    assert(names_of(rn0).len() == rn0.len());
    assert(rn0.len() == j);
    assert forall|x: int| 0 <= x < j + 1 implies names_of(rn1)[x] == regs[x].name@ by {
        if x < j {
            assert(rn1[x] == rn0[x]);
            assert(names_of(rn0)[x] == regs[x].name@);
        }
    }
    assert(names_of(rn1) =~= Seq::new((j + 1) as nat, |x: int| regs[x].name@));
    assert forall|x: int| 0 <= x < j implies seq![op, '_'] + (#[trigger] regs[x]).name@ != seq![op, '_'] + regs[j].name@ by {
        if seq![op, '_'] + regs[x].name@ == seq![op, '_'] + regs[j].name@ {
            assert((seq![op, '_'] + regs[x].name@).subrange(2, (seq![op, '_'] + regs[x].name@).len() as int) =~= regs[x].name@);
            assert((seq![op, '_'] + regs[j].name@).subrange(2, (seq![op, '_'] + regs[j].name@).len() as int) =~= regs[j].name@);
            assert(names_of(rn0)[x] == regs[j].name@);
        }
    }
}

/// The banks of a program are the declared ones, in order.
pub open spec fn banks_from_decls(bs: Seq<RegisterBank>, ds: Seq<RegisterBankDecl>, constants: WireValues) -> bool {
    &&& bs.len() == ds.len()
    &&& forall|i: int| 0 <= i < ds.len() ==> #[trigger] bank_from_decl(bs[i], ds[i], constants)
}

/// A well-named bank has a wire of the name: a register's input or output, or its
/// stall or bubble signal.
pub open spec fn bank_declares(b: RegisterBankDecl, n: Seq<char>) -> bool {
    &&& well_named(b)
    &&& {
        ||| exists|j: int|
            0 <= j < b.registers@.len() && (n == seq![b.name@[0], '_'] + (#[trigger] b.registers@[j]).name@ || n
                == seq![b.name@[1], '_'] + b.registers@[j].name@)
        ||| n == "stall_"@.push(b.name@[1])
        ||| n == "bubble_"@.push(b.name@[1])
    }
}

/// The names of the wires that the program declares, whatever their kind, each once.
fn declared_names(wires: &Vec<WireDecl>, banks: &Vec<RegisterBankDecl>, fixed: &Vec<FixedFunction>) -> (r: Vec<
    String,
>)
    ensures
        forall|n: Seq<char>| #[trigger] names_of(r@).contains(n) <==> declared_name(wires@, banks@, fixed@, n),
{
    let mut names: Vec<String> = Vec::new();
    let mut i: usize = 0;
    while i < fixed.len()
        invariant
            i <= fixed@.len(),
            forall|n: Seq<char>|
                #[trigger] names_of(names@).contains(n) <==> (exists|f: int, j: int|
                    0 <= f < i && 0 <= j < fixed@[f].in_wires@.len() && (#[trigger] fixed@[f].in_wires@[j]).name@ == n)
                    || (exists|f: int| 0 <= f < i && out_wire_named(#[trigger] fixed@[f], n)),
        decreases fixed@.len() - i,
    {
        let f = &fixed[i];
        let mut j: usize = 0;
        while j < f.in_wires.len()
            invariant
                i < fixed@.len(),
                f == &fixed@[i as int],
                j <= f.in_wires@.len(),
                forall|n: Seq<char>|
                    #[trigger] names_of(names@).contains(n) <==> (exists|g: int, k: int|
                        0 <= g < i && 0 <= k < fixed@[g].in_wires@.len() && (#[trigger] fixed@[g].in_wires@[k]).name@
                            == n) || (exists|g: int|
                        0 <= g < i && out_wire_named(#[trigger] fixed@[g], n)) || (exists|k: int|
                        0 <= k < j && (#[trigger] f.in_wires@[k]).name@ == n),
            decreases f.in_wires@.len() - j,
        {
            add_name(&mut names, f.in_wires[j].name.as_str());
            proof {
                assert forall|n: Seq<char>| #[trigger] names_of(names@).contains(n) implies (exists|g: int, k: int|
                    0 <= g < i && 0 <= k < fixed@[g].in_wires@.len() && (#[trigger] fixed@[g].in_wires@[k]).name@ == n)
                    || (exists|g: int| 0 <= g < i && out_wire_named(#[trigger] fixed@[g], n))
                    || (exists|k: int| 0 <= k < j + 1 && (#[trigger] f.in_wires@[k]).name@ == n) by {
                    if n == f.in_wires@[j as int].name@ {
                        assert(f.in_wires@[j as int].name@ == n);
                    }
                }
            }
            j = j + 1;
        }
        match &f.out_wire {
            Some(d) => add_name(&mut names, d.name.as_str()),
            None => {},
        }
        proof {
            assert forall|n: Seq<char>| #[trigger] names_of(names@).contains(n) implies (exists|g: int, k: int|
                0 <= g < i + 1 && 0 <= k < fixed@[g].in_wires@.len() && (#[trigger] fixed@[g].in_wires@[k]).name@ == n)
                || (exists|g: int| 0 <= g < i + 1 && out_wire_named(#[trigger] fixed@[g], n)) by {
                if exists|k: int| 0 <= k < f.in_wires@.len() && (#[trigger] f.in_wires@[k]).name@ == n {
                    let k = choose|k: int| 0 <= k < f.in_wires@.len() && (#[trigger] f.in_wires@[k]).name@ == n;
                    assert(fixed@[i as int].in_wires@[k].name@ == n);
                }
            }
            assert forall|n: Seq<char>|
                (exists|g: int, k: int|
                    0 <= g < i + 1 && 0 <= k < fixed@[g].in_wires@.len() && (#[trigger] fixed@[g].in_wires@[k]).name@ == n)
                    || (exists|g: int| 0 <= g < i + 1 && out_wire_named(#[trigger] fixed@[g], n))
                implies #[trigger] names_of(names@).contains(n) by {
                if exists|k: int| 0 <= k < fixed@[i as int].in_wires@.len() && (#[trigger] fixed@[i as int].in_wires@[k]).name@ == n {
                    let k = choose|k: int| 0 <= k < fixed@[i as int].in_wires@.len() && (#[trigger] fixed@[i as int].in_wires@[k]).name@ == n;
                    assert(f.in_wires@[k].name@ == n);
                }
            }
        }
        i = i + 1;
    }
    let mut i: usize = 0;
    while i < wires.len()
        invariant
            i <= wires@.len(),
            forall|n: Seq<char>|
                #[trigger] names_of(names@).contains(n) <==> (exists|f: int, j: int|
                    0 <= f < fixed@.len() && 0 <= j < fixed@[f].in_wires@.len() && (#[trigger] fixed@[f].in_wires@[j]).name@ == n)
                    || (exists|f: int| 0 <= f < fixed@.len() && out_wire_named(#[trigger] fixed@[f], n))
                    || (exists|k: int| 0 <= k < i && (#[trigger] wires@[k]).name@ == n),
        decreases wires@.len() - i,
    {
        add_name(&mut names, wires[i].name.as_str());
        proof {
            assert(wires@[i as int].name@ == wires@[i as int].name@);
        }
        i = i + 1;
    }
    let mut i: usize = 0;
    while i < banks.len()
        invariant
            i <= banks@.len(),
            forall|n: Seq<char>|
                #[trigger] names_of(names@).contains(n) <==> (exists|f: int, j: int|
                    0 <= f < fixed@.len() && 0 <= j < fixed@[f].in_wires@.len() && (#[trigger] fixed@[f].in_wires@[j]).name@ == n)
                    || (exists|f: int| 0 <= f < fixed@.len() && out_wire_named(#[trigger] fixed@[f], n))
                    || (exists|k: int| 0 <= k < wires@.len() && (#[trigger] wires@[k]).name@ == n)
                    || (exists|k: int| 0 <= k < i && bank_declares(#[trigger] banks@[k], n)),
        decreases banks@.len() - i,
    {
        let b = &banks[i];
        let ghost before = names@;
        match bank_prefixes(b.name.as_str()) {
            Some((ip, op)) => {
                let mut j: usize = 0;
                while j < b.registers.len()
                    invariant
                        i < banks@.len(),
                        b == &banks@[i as int],
                        well_named(*b),
                        b.name@ == seq![ip, op],
                        j <= b.registers@.len(),
                        forall|n: Seq<char>|
                            #[trigger] names_of(names@).contains(n) <==> (names_of(before).contains(n) || exists|k: int|
                                0 <= k < j && (n == seq![ip, '_'] + (#[trigger] b.registers@[k]).name@ || n == seq![op, '_']
                                    + b.registers@[k].name@)),
                    decreases b.registers@.len() - j,
                {
                    let in_name = prefixed(ip, b.registers[j].name.as_str());
                    let out_name = prefixed(op, b.registers[j].name.as_str());
                    add_name(&mut names, in_name.as_str());
                    add_name(&mut names, out_name.as_str());
                    proof {
                        let r = b.registers@[j as int];
                        assert forall|n: Seq<char>| #[trigger] names_of(names@).contains(n) implies (names_of(before).contains(n)
                            || exists|k: int|
                            0 <= k < j + 1 && (n == seq![ip, '_'] + (#[trigger] b.registers@[k]).name@ || n == seq![op, '_']
                                + b.registers@[k].name@)) by {
                            if n == in_name@ || n == out_name@ {
                                assert(b.registers@[j as int] == r);
                            }
                        }
                    }
                    j = j + 1;
                }
                let stall = signal_name("stall_", op);
                let bubble = signal_name("bubble_", op);
                add_name(&mut names, stall.as_str());
                add_name(&mut names, bubble.as_str());
                proof {
                    assert(b.name@[0] == ip && b.name@[1] == op);
                    assert forall|n: Seq<char>| #[trigger] names_of(names@).contains(n) implies (names_of(before).contains(n)
                        || bank_declares(banks@[i as int], n)) by {
                        if !names_of(before).contains(n) && n != stall@ && n != bubble@ {
                            let k = choose|k: int|
                                0 <= k < b.registers@.len() && (n == seq![ip, '_'] + (#[trigger] b.registers@[k]).name@ || n
                                    == seq![op, '_'] + b.registers@[k].name@);
                            assert(b.registers@[k] == banks@[i as int].registers@[k]);
                        }
                    }
                    assert forall|n: Seq<char>| bank_declares(banks@[i as int], n) implies #[trigger] names_of(names@).contains(n) by {
                        if exists|k: int|
                            0 <= k < b.registers@.len() && (n == seq![b.name@[0], '_'] + (#[trigger] b.registers@[k]).name@ || n
                                == seq![b.name@[1], '_'] + b.registers@[k].name@) {
                            let k = choose|k: int|
                                0 <= k < b.registers@.len() && (n == seq![b.name@[0], '_'] + (#[trigger] b.registers@[k]).name@ || n
                                    == seq![b.name@[1], '_'] + b.registers@[k].name@);
                            assert(b.registers@[k] == b.registers@[k]);
                        }
                    }
                }
            },
            None => {
                assert(!well_named(banks@[i as int]));
            },
        }
        proof {
            assert forall|n: Seq<char>| #[trigger] names_of(names@).contains(n) <==> (exists|f: int, j: int|
                0 <= f < fixed@.len() && 0 <= j < fixed@[f].in_wires@.len() && (#[trigger] fixed@[f].in_wires@[j]).name@ == n)
                || (exists|f: int| 0 <= f < fixed@.len() && out_wire_named(#[trigger] fixed@[f], n))
                || (exists|k: int| 0 <= k < wires@.len() && (#[trigger] wires@[k]).name@ == n)
                || (exists|k: int| 0 <= k < i + 1 && bank_declares(#[trigger] banks@[k], n)) by {
                if bank_declares(banks@[i as int], n) {
                    assert(bank_declares(banks@[i as int], n));
                }
            }
        }
        i = i + 1;
    }
    names
}

/// Every wire that the expression reads is one of the constants.
pub open spec fn reads_only_constants(e: SpannedExpr, constants: Seq<Seq<char>>) -> bool {
    forall|i: int| 0 <= i < spec_refs(e).len() ==> constants.contains(#[trigger] spec_refs(e)[i].0)
}

/// The error for each wire that an initial or constant value reads but that is not a
/// constant: a wire of the program, or a name declared nowhere.
fn check_constant_reads(
    e: &SpannedExpr,
    is_constant: &Vec<String>,
    declared: &Vec<String>,
    candidates: &Vec<String>,
    errors: &mut Vec<Error>,
) -> (r: bool)
    ensures
        r == reads_only_constants(*e, names_of(is_constant@)),
        r ==> final(errors)@ == old(errors)@,
        !r ==> final(errors)@.len() > old(errors)@.len(),
        final(errors)@.len() >= old(errors)@.len(),
{
    let mut refs: Vec<(String, Span)> = Vec::new();
    e.collect_refs(&mut refs);
    proof {
        assert forall|j: int| 0 <= j < refs@.len() implies (#[trigger] refs@[j]).0@ == spec_refs(*e)[j].0 by {
            assert(refs@[0 + j] == refs@[j]);
        }
    }
    let mut seen: Vec<String> = Vec::new();
    let mut ok = true;
    let mut k: usize = 0;
    while k < refs.len()
        invariant
            k <= refs@.len(),
            ok ==> errors@ == old(errors)@,
            !ok ==> errors@.len() > old(errors)@.len(),
            errors@.len() >= old(errors)@.len(),
            refs@.len() == spec_refs(*e).len(),
            forall|j: int| 0 <= j < refs@.len() ==> (#[trigger] refs@[j]).0@ == spec_refs(*e)[j].0,
            ok == (forall|j: int| 0 <= j < k ==> names_of(is_constant@).contains((#[trigger] refs@[j]).0@)),
            forall|n: Seq<char>|
                #[trigger] names_of(seen@).contains(n) ==> exists|j: int| 0 <= j < k && (#[trigger] refs@[j]).0@ == n,
            forall|j: int| 0 <= j < k ==> names_of(seen@).contains((#[trigger] refs@[j]).0@),
        decreases refs@.len() - k,
    {
        let name = &refs[k].0;
        let span = refs[k].1;
        let ghost old_seen = seen@;
        let ghost was_ok = ok;
        if contains_name(&seen, name.as_str()) {
            proof {
                let j = choose|j: int| 0 <= j < k && (#[trigger] refs@[j]).0@ == name@;
                if !names_of(is_constant@).contains(name@) {
                    assert(!names_of(is_constant@).contains(refs@[j].0@));
                }
            }
        }
        if !contains_name(&seen, name.as_str()) {
            seen.push(name.clone());
            proof {
                assert(names_of(seen@) =~= names_of(old_seen).push(name@));
                assert forall|n: Seq<char>| #[trigger] names_of(seen@).contains(n) implies exists|j: int|
                    0 <= j < k + 1 && (#[trigger] refs@[j]).0@ == n by {
                    if n == name@ {
                        assert(refs@[k as int].0@ == n);
                    } else {
                        assert(names_of(old_seen).contains(n));
                    }
                }
                assert forall|j: int| 0 <= j < k + 1 implies names_of(seen@).contains((#[trigger] refs@[j]).0@) by {
                    if j < k {
                        assert(names_of(old_seen).contains(refs@[j].0@));
                        let x = names_of(old_seen).index_of(refs@[j].0@);
                        assert(names_of(seen@)[x] == refs@[j].0@);
                    } else {
                        assert(names_of(seen@)[old_seen.len() as int] == name@);
                    }
                }
            }
            if !contains_name(is_constant, name.as_str()) {
                let expr = SpannedExpr::new(span, crate::ast::Expr::NamedWire(name.clone()));
                if contains_name(declared, name.as_str()) {
                    errors.push(Error::NonConstantWireRead(name.clone(), expr));
                } else {
                    errors.push(
                        Error::UndeclaredWireRead {
                            name: name.clone(),
                            expr,
                            close_name: find_close_names_in(name.as_str(), candidates),
                        },
                    );
                }
                ok = false;
            }
        }
        k = k + 1;
    }
    proof {
        if ok {
            assert forall|i: int| 0 <= i < spec_refs(*e).len() implies names_of(is_constant@).contains(
                #[trigger] spec_refs(*e)[i].0,
            ) by {
                assert(names_of(is_constant@).contains(refs@[i].0@));
            }
        } else {
            let j = choose|j: int| 0 <= j < k && !names_of(is_constant@).contains((#[trigger] refs@[j]).0@);
            assert(refs@[j].0@ == spec_refs(*e)[j].0);
        }
    }
    ok
}

/// The values of the constants, each computed after the constants it reads; or `None`
/// with the errors: a constant declared twice, a read of a wire that is not a
/// constant, constants that read each other in a circle, or a value that fails.
/// The values of the constants: one for each declared name and no other, each the value
/// of its declaration's expression over the constants.
pub open spec fn constants_resolved(consts: Seq<ConstDecl>, v: WireValues) -> bool {
    &&& forall|i: int|
        0 <= i < consts.len() ==> v@.dom().contains((#[trigger] consts[i]).name@) && spec_eval(
            consts[i].value,
            v@,
            v.keys(),
        ) == Ok::<WireValue, ExprFault>(v@[consts[i].name@])
    &&& forall|n: Seq<char>| #[trigger] v@.dom().contains(n) ==> exists|i: int| 0 <= i < consts.len() && (#[trigger] consts[i]).name@ == n
}

fn resolve_constants(consts: &Vec<ConstDecl>, declared: &Vec<String>, errors: &mut Vec<Error>) -> (r: Option<WireValues>)
    requires
        forall|i: int| 0 <= i < consts@.len() ==> (#[trigger] consts@[i]).value.well_formed(),
    ensures
        r matches Some(v) ==> values_valid(v),
        final(errors)@.len() >= old(errors)@.len(),
        r is None <==> final(errors)@.len() > old(errors)@.len(),
        r matches Some(v) ==> constants_resolved(consts@, v),
{
    let start_errors = errors.len();
    let mut names: Vec<String> = Vec::new();
    let mut first: Vec<usize> = Vec::new();
    let mut graph = Graph::new();
    let mut i: usize = 0;
    while i < consts.len()
        invariant
            i <= consts@.len(),
            names@.len() == first@.len(),
            forall|j: int| 0 <= j < first@.len() ==> (#[trigger] first@[j]) < consts@.len(),
            forall|j: int| 0 <= j < first@.len() ==> consts@[#[trigger] first@[j] as int].name@ == names@[j]@,
            forall|v: Seq<char>| #[trigger] graph.nodes().contains(v) <==> names_of(names@).contains(v),
            forall|j: int| 0 <= j < i ==> names_of(names@).contains((#[trigger] consts@[j]).name@),
            forall|v: Seq<char>|
                names_of(names@).contains(v) ==> exists|j: int| 0 <= j < i && (#[trigger] consts@[j]).name@ == v,
            start_errors == old(errors)@.len(),
            errors@.len() >= start_errors,
            errors@.len() == start_errors ==> forall|j: int|
                0 <= j < first@.len() ==> #[trigger] first@[j] == j && j < i,
            errors@.len() == start_errors ==> names@.len() == i,
            names_of(names@).no_duplicates(),
        decreases consts@.len() - i,
    {
        let c = &consts[i];
        match position_of(&names, c.name.as_str()) {
            Some(j) => {
                let old_span = consts[first[j]].name_span;
                errors.push(Error::RedeclaredWire(c.name.clone(), c.name_span, old_span));
                proof {
                    assert(names_of(names@)[j as int] == c.name@);
                }
            },
            None => {
                let ghost before = names@;
                let ghost nodes_before = graph.nodes();
                names.push(c.name.clone());
                first.push(i);
                graph.add_node(c.name.as_str());
                proof {
                    assert(names_of(names@) =~= names_of(before).push(c.name@));
                    assert(!nodes_before.contains(c.name@));
                    assert(graph.nodes() == nodes_before.push(c.name@));
                    assert forall|v: Seq<char>| #[trigger] graph.nodes().contains(v) <==> names_of(names@).contains(v) by {
                        if graph.nodes().contains(v) {
                            let p = graph.nodes().index_of(v);
                            if p < nodes_before.len() {
                                assert(nodes_before[p] == v);
                                assert(nodes_before.contains(v));
                                let q = names_of(before).index_of(v);
                                assert(names_of(names@)[q] == v);
                            } else {
                                assert(names_of(names@)[before.len() as int] == v);
                            }
                        }
                        if names_of(names@).contains(v) {
                            let p = names_of(names@).index_of(v);
                            if p < before.len() {
                                assert(names_of(before)[p] == v);
                                assert(names_of(before).contains(v));
                                assert(nodes_before.contains(v));
                                let q = nodes_before.index_of(v);
                                assert(graph.nodes()[q] == v);
                            } else {
                                assert(graph.nodes()[nodes_before.len() as int] == v);
                            }
                        }
                    }
                    assert forall|j: int| 0 <= j <= i implies names_of(names@).contains((#[trigger] consts@[j]).name@) by {
                        if j < i {
                            assert(names_of(before).contains(consts@[j].name@));
                            let p = names_of(before).index_of(consts@[j].name@);
                            assert(names_of(names@)[p] == consts@[j].name@);
                        } else {
                            assert(names_of(names@)[before.len() as int] == c.name@);
                        }
                    }
                    assert(names_of(names@).no_duplicates()) by {
                        assert forall|x: int, y: int|
                            0 <= x < y < names_of(names@).len() implies names_of(names@)[x] != names_of(names@)[y] by {
                            if y == before.len() {
                                assert(names_of(before)[x] == names_of(names@)[x]);
                                assert(names_of(before).contains(names_of(names@)[x]));
                            }
                        }
                    }
                    assert forall|v: Seq<char>| names_of(names@).contains(v) implies exists|j: int|
                        0 <= j < i + 1 && (#[trigger] consts@[j]).name@ == v by {
                        if v != c.name@ {
                            let p = names_of(names@).index_of(v);
                            assert(names_of(before)[p] == v);
                            assert(names_of(before).contains(v));
                        } else {
                            assert(consts@[i as int].name@ == v);
                        }
                    }
                }
            },
        }
        i = i + 1;
    }
    let ghost clean_after_names = errors@.len() == start_errors;
    assert(clean_after_names ==> names@.len() == consts@.len());
    let mut candidates = copy_names(&names);
    let mut i: usize = 0;
    while i < declared.len()
        invariant
            i <= declared@.len(),
        decreases declared@.len() - i,
    {
        candidates.push(declared[i].clone());
        i = i + 1;
    }
    let ghost const_names = names_of(names@);
    let mut i: usize = 0;
    while i < consts.len()
        invariant
            i <= consts@.len(),
            start_errors == old(errors)@.len(),
            errors@.len() >= start_errors,
            const_names == names_of(names@),
            forall|v: Seq<char>| #[trigger] graph.nodes().contains(v) <==> names_of(names@).contains(v),
            forall|j: int| 0 <= j < consts@.len() ==> names_of(names@).contains((#[trigger] consts@[j]).name@),
            clean_after_names || errors@.len() > start_errors,
        decreases consts@.len() - i,
    {
        let c = &consts[i];
        assert(names_of(names@).contains(consts@[i as int].name@));
        check_constant_reads(&c.value, &names, declared, &candidates, errors);
        let refs = c.value.referenced_wires();
        let mut k: usize = 0;
        while k < refs.len()
            invariant
                k <= refs@.len(),
                const_names == names_of(names@),
                forall|v: Seq<char>| #[trigger] graph.nodes().contains(v) <==> names_of(names@).contains(v),
                names_of(names@).contains(c.name@),
            decreases refs@.len() - k,
        {
            if contains_name(&names, refs[k].as_str()) {
                graph.insert(refs[k].as_str(), c.name.as_str());
            }
            k = k + 1;
        }
        i = i + 1;
    }
    if errors.len() > start_errors {
        return None;
    }
    match graph.topological_sort() {
        Err(cycle) => {
            errors.push(Error::WireLoop(cycle));
            None
        },
        Ok(order) => {
            let mut values: WireValues = NameMap::new();
            let mut k: usize = 0;
            while k < order.len()
                invariant
                    k <= order@.len(),
                    values_valid(values),
                    names@.len() == first@.len(),
                    names@.len() == consts@.len(),
                    forall|j: int| 0 <= j < first@.len() ==> (#[trigger] first@[j]) == j,
                    forall|j: int| 0 <= j < first@.len() ==> consts@[#[trigger] first@[j] as int].name@ == names@[j]@,
                    forall|j: int| 0 <= j < consts@.len() ==> (#[trigger] consts@[j]).value.well_formed(),
                    names_of(order@).no_duplicates(),
                    forall|v: Seq<char>| #[trigger] names_of(order@).contains(v) <==> names_of(names@).contains(v),
                    errors@.len() == old(errors)@.len(),
                    forall|v: Seq<char>|
                        #[trigger] values@.dom().contains(v) <==> exists|j: int| 0 <= j < k && order@[j]@ == v,
                    forall|j: int| 0 <= j < consts@.len() ==> names_of(names@).contains((#[trigger] consts@[j]).name@),
                    forall|v: Seq<char>|
                        names_of(names@).contains(v) ==> exists|j: int| 0 <= j < consts@.len() && (#[trigger] consts@[j]).name@ == v,
                    names_of(names@).no_duplicates(),
                    forall|j: int|
                        0 <= j < consts@.len() && #[trigger] values@.dom().contains(consts@[j].name@) ==> spec_eval(
                            consts@[j].value,
                            values@,
                            values.keys(),
                        ) == Ok::<WireValue, ExprFault>(values@[consts@[j].name@]),
                decreases order@.len() - k,
            {
                match position_of(&names, order[k].as_str()) {
                    Some(j) => {
                        let ci = first[j];
                        let ghost before = values;
                        match consts[ci].value.evaluate(&values) {
                            Ok(v) => {
                                proof {
                                    assert(!before@.dom().contains(order@[k as int]@)) by {
                                        if before@.dom().contains(order@[k as int]@) {
                                            let j2 = choose|j2: int| 0 <= j2 < k && order@[j2]@ == order@[k as int]@;
                                            assert(names_of(order@)[j2] == names_of(order@)[k as int]);
                                        }
                                    }
                                }
                                values.insert(order[k].clone(), v);
                                proof {
                                    assert(before@.submap_of(values@));
                                    assert forall|x: int|
                                        0 <= x < consts@.len() && #[trigger] values@.dom().contains(consts@[x].name@)
                                        implies spec_eval(consts@[x].value, values@, values.keys()) == Ok::<
                                        WireValue,
                                        ExprFault,
                                    >(values@[consts@[x].name@]) by {
                                        if consts@[x].name@ == order@[k as int]@ {
                                            assert(x == ci) by {
                                                assert(first@[x] == x);
                                                assert(consts@[first@[x] as int].name@ == names@[x]@);
                                                assert(first@[j as int] == j);
                                                assert(names@[j as int]@ == order@[k as int]@);
                                                assert(names_of(names@)[x] == names@[x]@);
                                                assert(names_of(names@)[j as int] == names@[j as int]@);
                                            }
                                            lemma_eval_extends(consts@[x].value, before@, values@, before.keys(), values.keys());
                                        } else {
                                            assert(before@.dom().contains(consts@[x].name@));
                                            lemma_eval_extends(consts@[x].value, before@, values@, before.keys(), values.keys());
                                        }
                                    }
                                }
                            },
                            Err(e) => {
                                errors.push(e);
                                return None;
                            },
                        }
                    },
                    None => {
                        proof {
                            assert(names_of(order@).contains(order@[k as int]@)) by {
                                assert(names_of(order@)[k as int] == order@[k as int]@);
                            }
                        }
                    },
                }
                k = k + 1;
            }
            proof {
                assert forall|i: int| 0 <= i < consts@.len() implies values@.dom().contains(
                    (#[trigger] consts@[i]).name@,
                ) by {
                    let n = consts@[i].name@;
                    assert(names_of(names@).contains(n));
                    assert(names_of(order@).contains(n));
                    let j = names_of(order@).index_of(n);
                    assert(order@[j]@ == n);
                }
                assert forall|n: Seq<char>| #[trigger] values@.dom().contains(n) implies exists|i: int|
                    0 <= i < consts@.len() && (#[trigger] consts@[i]).name@ == n by {
                    let j = choose|j: int| 0 <= j < order@.len() && order@[j]@ == n;
                    assert(names_of(order@)[j] == n);
                    assert(names_of(order@).contains(n));
                    assert(names_of(names@).contains(n));
                }
            }
            Some(values)
        },
    }
}

/// Where a constant was declared: the first declaration of the name, or `(0, 0)`.
fn constant_span(consts: &Vec<ConstDecl>, name: &str) -> (r: Span)
    ensures
        (forall|i: int| 0 <= i < consts@.len() ==> (#[trigger] consts@[i]).name@ != name@) ==> r == (0usize, 0usize),
        (exists|i: int| 0 <= i < consts@.len() && (#[trigger] consts@[i]).name@ == name@) ==> exists|i: int|
            0 <= i < consts@.len() && (#[trigger] consts@[i]).name@ == name@ && r == consts@[i].name_span && forall|
                j: int,
            | 0 <= j < i ==> (#[trigger] consts@[j]).name@ != name@,
{
    let mut i: usize = 0;
    while i < consts.len()
        invariant
            i <= consts@.len(),
            forall|j: int| 0 <= j < i ==> (#[trigger] consts@[j]).name@ != name@,
        decreases consts@.len() - i,
    {
        if str_eq(consts[i].name.as_str(), name) {
            return consts[i].name_span;
        }
        i = i + 1;
    }
    (0, 0)
}

/// `fi` is the position of a piece of fixed functionality whose output wire is `name`.
pub open spec fn fixed_output_of(fixed: Seq<FixedFunction>, fi: usize, name: Seq<char>) -> bool {
    &&& fi < fixed.len()
    &&& fixed[fi as int].out_wire matches Some(d) && d.name@ == name
}

/// The wires of fixed functionality, declared wires and register banks, with their
/// widths; the errors go to `errors`: a wire declared twice or over a built-in one,
/// a bad bank name, a register declared twice or with an output that another bank
/// has, and a default value that is not constant or has another width.
fn declare(
    wires: &Vec<WireDecl>,
    banks: &Vec<RegisterBankDecl>,
    fixed: &Vec<FixedFunction>,
    constants: &WireValues,
    consts: &Vec<ConstDecl>,
    errors: &mut Vec<Error>,
) -> (r: Declared)
    requires
        forall|i: int| 0 <= i < fixed@.len() ==> (#[trigger] fixed@[i]).wf(),
        forall|i: int| 0 <= i < wires@.len() ==> (#[trigger] wires@[i]).width.valid(),
        forall|i: int, j: int|
            0 <= i < banks@.len() && 0 <= j < banks@[i].registers@.len() ==> (#[trigger] banks@[i].registers@[j]).default.well_formed(),
        forall|i: int, j: int|
            0 <= i < banks@.len() && 0 <= j < banks@[i].registers@.len() ==> (#[trigger] banks@[i].registers@[j]).width.valid(),
        values_valid(*constants),
    ensures
        r.wf(),
        forall|k: Seq<char>|
            #[trigger] r.builtin_outputs@.dom().contains(k) ==> fixed_output_of(fixed@, r.builtin_outputs@[k], k),
        final(errors)@.len() >= old(errors)@.len(),
        final(errors)@.len() == old(errors)@.len() ==> forall|i: int|
            0 <= i < wires@.len() ==> r.wire_spans@.dom().contains((#[trigger] wires@[i]).name@),
        final(errors)@.len() == old(errors)@.len() ==> forall|i: int|
            0 <= i < banks@.len() ==> well_named(#[trigger] banks@[i]),
        final(errors)@.len() == old(errors)@.len() ==> banks_from_decls(r.banks@, banks@, *constants),
{
    let mut widths: WireWidths = NameMap::new();
    let mut builtin: NameMap<usize> = NameMap::new();
    let mut builtin_outputs: NameMap<usize> = NameMap::new();
    let mut i: usize = 0;
    while i < fixed.len()
        invariant
            i <= fixed@.len(),
            forall|k: int| 0 <= k < fixed@.len() ==> (#[trigger] fixed@[k]).wf(),
            forall|k: Seq<char>| #[trigger] widths@.dom().contains(k) ==> widths@[k].valid(),
            forall|k: Seq<char>|
                #[trigger] builtin_outputs@.dom().contains(k) ==> fixed_output_of(fixed@, builtin_outputs@[k], k),
        decreases fixed@.len() - i,
    {
        let f = &fixed[i];
        let mut j: usize = 0;
        while j < f.in_wires.len()
            invariant
                i < fixed@.len(),
                f == &fixed@[i as int],
                f.wf(),
                j <= f.in_wires@.len(),
                forall|k: Seq<char>| #[trigger] widths@.dom().contains(k) ==> widths@[k].valid(),
            decreases f.in_wires@.len() - j,
        {
            let d = &f.in_wires[j];
            widths.insert(d.name.clone(), d.width);
            builtin.insert(d.name.clone(), i);
            j = j + 1;
        }
        match &f.out_wire {
            Some(d) => {
                widths.insert(d.name.clone(), d.width);
                builtin.insert(d.name.clone(), i);
                builtin_outputs.insert(d.name.clone(), i);
            },
            None => {},
        }
        i = i + 1;
    }
    let mut wire_spans: NameMap<Span> = NameMap::new();
    let mut i: usize = 0;
    while i < wires.len()
        invariant
            i <= wires@.len(),
            forall|k: int| 0 <= k < wires@.len() ==> (#[trigger] wires@[k]).width.valid(),
            forall|k: Seq<char>| #[trigger] widths@.dom().contains(k) ==> widths@[k].valid(),
            errors@.len() >= old(errors)@.len(),
            errors@.len() == old(errors)@.len() ==> forall|k: int|
                0 <= k < i ==> wire_spans@.dom().contains((#[trigger] wires@[k]).name@),
        decreases wires@.len() - i,
    {
        let d = &wires[i];
        match builtin.get(d.name.as_str()) {
            Some(fi) => {
                let fixed_name = if *fi < fixed.len() {
                    fixed[*fi].name.clone()
                } else {
                    String::new()
                };
                errors.push(Error::RedeclaredBuiltinWire { name: d.name.clone(), span: d.span, fixed_name });
            },
            None => {
                match wire_spans.get(d.name.as_str()) {
                    Some(old_span) => {
                        errors.push(Error::RedeclaredWire(d.name.clone(), d.span, *old_span));
                    },
                    None => {
                        if constants.contains_key(d.name.as_str()) {
                            let old_span = constant_span(consts, d.name.as_str());
                            errors.push(Error::RedeclaredWire(d.name.clone(), d.span, old_span));
                        } else {
                            widths.insert(d.name.clone(), d.width);
                            wire_spans.insert(d.name.clone(), d.span);
                        }
                    },
                }
            },
        }
        i = i + 1;
    }
    let mut register_inputs: NameMap<Span> = NameMap::new();
    let mut register_outputs: NameMap<Span> = NameMap::new();
    let mut controls: Vec<String> = Vec::new();
    let mut out_banks: Vec<RegisterBank> = Vec::new();
    let ghost after_wires = errors@.len();
    let constant_names = copy_names(constants.names());
    let all_names = declared_names(wires, banks, fixed);
    let mut i: usize = 0;
    while i < banks.len()
        invariant
            i <= banks@.len(),
            forall|a: int, b: int|
                0 <= a < banks@.len() && 0 <= b < banks@[a].registers@.len() ==> (#[trigger] banks@[a].registers@[b]).default.well_formed(),
            forall|a: int, b: int|
                0 <= a < banks@.len() && 0 <= b < banks@[a].registers@.len() ==> (#[trigger] banks@[a].registers@[b]).width.valid(),
            values_valid(*constants),
            forall|k: Seq<char>| #[trigger] widths@.dom().contains(k) ==> widths@[k].valid(),
            forall|k: int| 0 <= k < out_banks@.len() ==> (#[trigger] out_banks@[k]).wf(),
            errors@.len() >= after_wires,
            errors@.len() == after_wires ==> forall|a: int| 0 <= a < i ==> well_named(#[trigger] banks@[a]),
            errors@.len() == after_wires ==> out_banks@.len() == i && forall|a: int|
                0 <= a < i ==> #[trigger] bank_from_decl(out_banks@[a], banks@[a], *constants),
        decreases banks@.len() - i,
    {
        let b = &banks[i];
        let ghost at_bank = errors@.len();
        match bank_prefixes(b.name.as_str()) {
            None => {
                errors.push(Error::InvalidRegisterBankName(b.name.clone(), b.name_span));
            },
            Some((ip, op)) => {
                let mut signals: Vec<(String, String, WireWidth)> = Vec::new();
                let mut spans: Vec<Span> = Vec::new();
                let mut defaults: WireValues = NameMap::new();
                let mut reg_names: Vec<String> = Vec::new();
                let mut j: usize = 0;
                while j < b.registers.len()
                    invariant
                        i < banks@.len(),
                        b == &banks@[i as int],
                        j <= b.registers@.len(),
                        forall|x: int| 0 <= x < b.registers@.len() ==> (#[trigger] b.registers@[x]).default.well_formed(),
                        forall|x: int| 0 <= x < b.registers@.len() ==> (#[trigger] b.registers@[x]).width.valid(),
                        values_valid(*constants),
                        values_valid(defaults),
                        forall|k: Seq<char>| #[trigger] widths@.dom().contains(k) ==> widths@[k].valid(),
                        forall|x: int| 0 <= x < signals@.len() ==> (#[trigger] signals@[x]).2.valid(),
                        errors@.len() >= after_wires,
                        errors@.len() >= at_bank,
                        b.name@ == seq![ip, op],
                        errors@.len() == at_bank ==> {
                            &&& signals@.len() == j
                            &&& spans@.len() == j
                            &&& names_of(reg_names@) == Seq::new(j as nat, |x: int| b.registers@[x].name@)
                            &&& forall|x: int|
                                0 <= x < j ==> {
                                    let rg = #[trigger] b.registers@[x];
                                    let out = seq![op, '_'] + rg.name@;
                                    &&& signals@[x].0@ == seq![ip, '_'] + rg.name@
                                    &&& signals@[x].1@ == out
                                    &&& signals@[x].2 == rg.width
                                    &&& spans@[x] == rg.span
                                    &&& defaults@.dom().contains(out)
                                    &&& spec_eval(rg.default, constants@, constants.keys()) matches Ok(v)
                                        && defaults@[out] == v.spec_as_width(rg.width)
                                }
                            &&& forall|n: Seq<char>|
                                #[trigger] defaults@.dom().contains(n) ==> exists|x: int|
                                    0 <= x < j && n == seq![op, '_'] + (#[trigger] b.registers@[x]).name@
                        },
                    decreases b.registers@.len() - j,
                {
                    let ghost d0 = defaults@;
                    let ghost s0 = signals@;
                    let ghost sp0 = spans@;
                    let ghost rn0 = reg_names@;
                    let ghost e0 = errors@.len();
                    let r = &b.registers[j];
                    assert(b.registers@[j as int].default.well_formed());
                    assert(b.registers@[j as int].width.valid());
                    let in_name = prefixed(ip, r.name.as_str());
                    let out_name = prefixed(op, r.name.as_str());
                    if contains_name(&reg_names, r.name.as_str()) {
                        errors.push(Error::DuplicateRegister { bank: b.name.clone(), register_name: r.name.clone() });
                    } else {
                        reg_names.push(r.name.clone());
                        let previous = register_outputs.get(out_name.as_str());
                        match previous {
                            Some(old_span) => {
                                errors.push(
                                    Error::DoubleDeclaredRegisterOutWire {
                                        name: out_name.clone(),
                                        old_span: *old_span,
                                        new_span: r.span,
                                    },
                                );
                            },
                            None => {
                                if check_constant_reads(&r.default, &constant_names, &all_names, &constant_names, errors) {
                                    match r.default.evaluate(constants) {
                                        Err(e) => {
                                            errors.push(e);
                                        },
                                        Ok(v) => {
                                            match v.width.combine(r.width) {
                                                None => {
                                                    errors.push(
                                                        Error::MismatchedRegisterDefaultWidths {
                                                            bank: b.name.clone(),
                                                            register_name: r.name.clone(),
                                                            register_width: r.width,
                                                            default_expression: r.default.copy(),
                                                            expression_width: v.width,
                                                        },
                                                    );
                                                },
                                                Some(_) => {
                                                    defaults.insert(out_name.clone(), v.as_width(r.width));
                                                    widths.insert(in_name.clone(), r.width);
                                                    widths.insert(out_name.clone(), r.width);
                                                    register_inputs.insert(in_name.clone(), r.span);
                                                    register_outputs.insert(out_name.clone(), r.span);
                                                    signals.push((in_name, out_name, r.width));
                                                    spans.push(r.span);
                                                    proof {
                                                        if e0 == at_bank {
                                                        lemma_registers_extend(
                                                            b.registers@,
                                                            j as int,
                                                            ip,
                                                            op,
                                                            rn0,
                                                            reg_names@,
                                                            d0,
                                                            defaults@,
                                                        );
                                                            assert forall|x: int| 0 <= x < j + 1 implies {
                                                                let rg = #[trigger] b.registers@[x];
                                                                let out = seq![op, '_'] + rg.name@;
                                                                &&& signals@[x].0@ == seq![ip, '_'] + rg.name@
                                                                &&& signals@[x].1@ == out
                                                                &&& signals@[x].2 == rg.width
                                                                &&& spans@[x] == rg.span
                                                                &&& defaults@.dom().contains(out)
                                                                &&& spec_eval(rg.default, constants@, constants.keys()) matches Ok(v)
                                                                    && defaults@[out] == v.spec_as_width(rg.width)
                                                            } by {
                                                                if x < j {
                                                                    assert(signals@[x] == s0[x]);
                                                                    assert(spans@[x] == sp0[x]);
                                                                }
                                                            }
                                                            assert forall|n: Seq<char>|
                                                                #[trigger] defaults@.dom().contains(n) implies exists|x: int|
                                                                    0 <= x < j + 1 && n == seq![op, '_'] + (#[trigger] b.registers@[x]).name@ by {
                                                                if n != seq![op, '_'] + b.registers@[j as int].name@ {
                                                                    assert(d0.dom().contains(n));
                                                                }
                                                            }
                                                        }
                                                    }
                                                },
                                            }
                                        },
                                    }
                                }
                            },
                        }
                    }
                    j = j + 1;
                }
                let stall = signal_name("stall_", op);
                let bubble = signal_name("bubble_", op);
                widths.insert(stall.clone(), WireWidth::Bits(1));
                widths.insert(bubble.clone(), WireWidth::Bits(1));
                controls.push(stall.clone());
                controls.push(bubble.clone());
                out_banks.push(
                    RegisterBank {
                        label: b.name.clone(),
                        signals,
                        spans,
                        defaults,
                        stall_signal: stall,
                        bubble_signal: bubble,
                    },
                );
            },
        }
        i = i + 1;
    }
    Declared {
        widths,
        wire_spans,
        register_inputs,
        register_outputs,
        controls,
        builtin,
        builtin_outputs,
        banks: out_banks,
    }
}

/// One of the wires that an assignment sets is `name`.
pub open spec fn assigns_name(a: Assignment, name: Seq<char>) -> bool {
    exists|j: int| 0 <= j < a.names@.len() && (#[trigger] a.names@[j]).0@ == name
}

/// No wire is set by two assignments, or twice by one.
pub open spec fn assigned_once(assigns: Seq<Assignment>) -> bool {
    forall|i: int, j: int, i2: int, j2: int|
        0 <= i < assigns.len() && 0 <= j < assigns[i].names@.len() && 0 <= i2 < assigns.len() && 0 <= j2
            < assigns[i2].names@.len() && (i != i2 || j != j2) ==> (#[trigger] assigns[i].names@[j]).0@ != (
        #[trigger] assigns[i2].names@[j2]).0@
}

/// The wires that assignments set, with where and by which assignment; the errors go
/// to `errors`: an assignment to a constant, to an output of fixed functionality or
/// of a register, to an undeclared wire or to a wire assigned before, and widths that
/// disagree.
fn check_assignments(
    assigns: &Vec<Assignment>,
    declared: &Declared,
    constants: &WireValues,
    consts: &Vec<ConstDecl>,
    fixed: &Vec<FixedFunction>,
    strict: bool,
    errors: &mut Vec<Error>,
) -> (r: (NameMap<Span>, NameMap<usize>))
    requires
        forall|i: int| 0 <= i < assigns@.len() ==> (#[trigger] assigns@[i]).value.well_formed(),
        values_valid(*constants),
    ensures
        forall|k: Seq<char>| #[trigger] r.1@.dom().contains(k) ==> r.1@[k] < assigns@.len(),
        forall|k: Seq<char>| #[trigger] r.1@.dom().contains(k) ==> assigns_name(assigns@[r.1@[k] as int], k),
        forall|k: Seq<char>| #[trigger] r.1@.dom().contains(k) ==> declared.widths@.dom().contains(k),
        final(errors)@.len() >= old(errors)@.len(),
        final(errors)@.len() == old(errors)@.len() ==> forall|i: int, j: int|
            0 <= i < assigns@.len() && 0 <= j < assigns@[i].names@.len() ==> r.1@.dom().contains(
                (#[trigger] assigns@[i].names@[j]).0@,
            ),
        final(errors)@.len() == old(errors)@.len() ==> assigned_once(assigns@),
        r.0@.dom() == r.1@.dom(),
{
    let mut all_widths = declared.widths.duplicate();
    let mut i: usize = 0;
    while i < constants.len()
        invariant
            i <= constants.spec_len(),
        decreases constants.spec_len() - i,
    {
        let v = constants.value_at_index(i);
        all_widths.insert(constants.name_at(i).clone(), v.width);
        i = i + 1;
    }
    let candidates = copy_names(all_widths.names());
    let mut assigned: NameMap<Span> = NameMap::new();
    let mut assignment_of: NameMap<usize> = NameMap::new();
    let mut i: usize = 0;
    while i < assigns.len()
        invariant
            i <= assigns@.len(),
            forall|k: int| 0 <= k < assigns@.len() ==> (#[trigger] assigns@[k]).value.well_formed(),
            values_valid(*constants),
            forall|k: Seq<char>| #[trigger] assignment_of@.dom().contains(k) ==> assignment_of@[k] < assigns@.len(),
            forall|k: Seq<char>|
                #[trigger] assignment_of@.dom().contains(k) ==> assigns_name(assigns@[assignment_of@[k] as int], k),
            forall|k: Seq<char>| #[trigger] assignment_of@.dom().contains(k) ==> declared.widths@.dom().contains(k),
            errors@.len() >= old(errors)@.len(),
            errors@.len() == old(errors)@.len() ==> forall|a: int, j: int|
                0 <= a < i && 0 <= j < assigns@[a].names@.len() ==> assignment_of@.dom().contains(
                    (#[trigger] assigns@[a].names@[j]).0@,
                ) && assignment_of@[assigns@[a].names@[j].0@] == a,
            errors@.len() == old(errors)@.len() ==> forall|a: int, j1: int, j2: int|
                0 <= a < i && 0 <= j1 < j2 < assigns@[a].names@.len() ==> (#[trigger] assigns@[a].names@[j1]).0@
                    != (#[trigger] assigns@[a].names@[j2]).0@,
            assigned@.dom() == assignment_of@.dom(),
        decreases assigns@.len() - i,
    {
        let a = &assigns[i];
        assert(assigns@[i as int].value.well_formed());
        let width = a.value.get_width_and_check_with(&all_widths, constants, strict);
        let mut k: usize = 0;
        while k < a.names.len()
            invariant
                i < assigns@.len(),
                a == &assigns@[i as int],
                k <= a.names@.len(),
                forall|x: Seq<char>| #[trigger] assignment_of@.dom().contains(x) ==> assignment_of@[x] < assigns@.len(),
                forall|x: Seq<char>|
                    #[trigger] assignment_of@.dom().contains(x) ==> assigns_name(assigns@[assignment_of@[x] as int], x),
                forall|x: Seq<char>| #[trigger] assignment_of@.dom().contains(x) ==> declared.widths@.dom().contains(x),
                errors@.len() >= old(errors)@.len(),
                errors@.len() == old(errors)@.len() ==> forall|b: int, j: int|
                    0 <= b < i && 0 <= j < assigns@[b].names@.len() ==> assignment_of@.dom().contains(
                        (#[trigger] assigns@[b].names@[j]).0@,
                    ) && assignment_of@[assigns@[b].names@[j].0@] == b,
                errors@.len() == old(errors)@.len() ==> forall|b: int, j1: int, j2: int|
                    0 <= b < i && 0 <= j1 < j2 < assigns@[b].names@.len() ==> (#[trigger] assigns@[b].names@[j1]).0@
                        != (#[trigger] assigns@[b].names@[j2]).0@,
                errors@.len() == old(errors)@.len() ==> forall|j: int|
                    0 <= j < k ==> assignment_of@.dom().contains((#[trigger] a.names@[j]).0@) && assignment_of@[a.names@[
                        j
                    ].0@] == i,
                errors@.len() == old(errors)@.len() ==> forall|j1: int, j2: int|
                    0 <= j1 < j2 < k ==> (#[trigger] a.names@[j1]).0@ != (#[trigger] a.names@[j2]).0@,
                assigned@.dom() == assignment_of@.dom(),
            decreases a.names@.len() - k,
        {
            let name = &a.names[k].0;
            let n = name.as_str();
            if constants.contains_key(n) {
                let old_span = constant_span(consts, n);
                errors.push(Error::DoubleAssignedWire(name.clone(), a.span, old_span));
            } else if declared.builtin_outputs.contains_key(n) {
                let fi = *declared.builtin_outputs.get(n).unwrap();
                let fixed_name = if fi < fixed.len() {
                    fixed[fi].name.clone()
                } else {
                    String::new()
                };
                errors.push(Error::DoubleAssignedFixedOutWire { name: name.clone(), span: a.span, fixed_name });
            } else if declared.register_outputs.contains_key(n) {
                let register_span = *declared.register_outputs.get(n).unwrap();
                errors.push(
                    Error::DoubleAssignedRegisterWire { name: name.clone(), register_span, assign_span: a.span },
                );
            } else if !declared.widths.contains_key(n) {
                errors.push(
                    Error::UndeclaredWireAssigned {
                        name: name.clone(),
                        span: a.span,
                        close_name: find_close_names_in(n, &candidates),
                    },
                );
            } else if assigned.contains_key(n) {
                let old_span = *assigned.get(n).unwrap();
                errors.push(Error::DoubleAssignedWire(name.clone(), a.span, old_span));
            } else {
                assigned.insert(name.clone(), a.span);
                assert(a.names@[k as int].0@ == name@);
                assignment_of.insert(name.clone(), i);
                match &width {
                    Ok(w) => {
                        let wire_width = *declared.widths.get(n).unwrap();
                        match wire_width.combine_expr_and_wire(*w, n, &a.value) {
                            Err(e) => {
                                errors.push(e);
                            },
                            Ok(_) => {},
                        }
                    },
                    Err(_) => {},
                }
            }
            k = k + 1;
        }
        match width {
            Err(e) => {
                errors.push(e);
            },
            Ok(_) => {},
        }
        i = i + 1;
    }
    (assigned, assignment_of)
}

/// The stall and bubble signals that no assignment sets; the errors go to `errors`: a
/// declared wire or a register input that no assignment sets.
fn check_unset(declared: &Declared, assigned: &NameMap<Span>, errors: &mut Vec<Error>) -> (r: Vec<String>)
    ensures
        final(errors)@.len() >= old(errors)@.len(),
        final(errors)@.len() == old(errors)@.len() ==> forall|k: Seq<char>|
            #[trigger] declared.wire_spans@.dom().contains(k) ==> assigned@.dom().contains(k),
{
    proof {
        use_type_invariant(&declared.wire_spans);
        declared.wire_spans.lemma_keys();
    }
    let mut i: usize = 0;
    while i < declared.wire_spans.len()
        invariant
            i <= declared.wire_spans.spec_len(),
            errors@.len() >= old(errors)@.len(),
            errors@.len() == old(errors)@.len() ==> forall|x: int|
                0 <= x < i ==> assigned@.dom().contains(#[trigger] declared.wire_spans.keys()[x]),
        decreases declared.wire_spans.spec_len() - i,
    {
        let name = declared.wire_spans.name_at(i);
        if !assigned.contains_key(name.as_str()) {
            errors.push(Error::UnsetWire(name.clone(), declared.wire_spans.value_at_index(i)));
        }
        i = i + 1;
    }
    let ghost after_wires = errors@.len();
    proof {
        if after_wires == old(errors)@.len() {
            assert forall|k: Seq<char>| #[trigger] declared.wire_spans@.dom().contains(k) implies assigned@.dom().contains(k) by {
                assert(declared.wire_spans.keys().contains(k));
                let x = declared.wire_spans.keys().index_of(k);
                assert(assigned@.dom().contains(declared.wire_spans.keys()[x]));
            }
        }
    }
    let mut i: usize = 0;
    while i < declared.register_inputs.len()
        invariant
            i <= declared.register_inputs.spec_len(),
            errors@.len() >= after_wires,
        decreases declared.register_inputs.spec_len() - i,
    {
        let name = declared.register_inputs.name_at(i);
        if !assigned.contains_key(name.as_str()) {
            errors.push(
                Error::UnsetRegisterInputWire {
                    name: name.clone(),
                    register_span: declared.register_inputs.value_at_index(i),
                },
            );
        }
        i = i + 1;
    }
    let mut defaulted: Vec<String> = Vec::new();
    let mut i: usize = 0;
    while i < declared.controls.len()
        invariant
            i <= declared.controls@.len(),
        decreases declared.controls@.len() - i,
    {
        let name = declared.controls[i].as_str();
        if !assigned.contains_key(name) {
            add_name(&mut defaulted, name);
        }
        i = i + 1;
    }
    defaulted
}

/// The first `i` of `n` names as `list_with_and_plain` writes them: two joined with
/// ` and `; more joined with `, `, the last after `, and `.
pub open spec fn plain_list(items: Seq<Seq<char>>, i: nat) -> Seq<char>
    decreases i,
{
    if i == 0 {
        Seq::empty()
    } else {
        plain_list(items, (i - 1) as nat) + (if i == 1 {
            Seq::empty()
        } else if items.len() == 2 {
            " and "@
        } else if i == items.len() {
            ", and "@
        } else {
            ", "@
        }) + items[i - 1]
    }
}

/// A list of names: `a`, `a and b`, or `a, b, and c`.
pub fn list_with_and_plain(items: &Vec<String>) -> (r: String)
    ensures
        r@ == plain_list(names_of(items@), items@.len()),
{
    let ghost names = names_of(items@);
    let mut r = String::new();
    let n = items.len();
    let mut i: usize = 0;
    while i < n
        invariant
            n == items@.len(),
            names == names_of(items@),
            i <= n,
            r@ == plain_list(names, i as nat),
        decreases n - i,
    {
        if i > 0 {
            if n == 2 {
                crate::text::push_str(&mut r, " and ");
            } else if i + 1 == n {
                crate::text::push_str(&mut r, ", and ");
            } else {
                crate::text::push_str(&mut r, ", ");
            }
        }
        crate::text::push_str(&mut r, items[i].as_str());
        proof {
            if i == 0 {
                assert(r@ =~= plain_list(names, 1));
            }
        }
        i = i + 1;
    }
    r
}

/// Which pieces of fixed functionality the program uses: those whose inputs it all
/// sets. The errors go to `errors`: an input that a mandatory piece, or a piece whose
/// output is read, needs and that is not set; and a piece with some inputs set but not
/// all, when those inputs serve no piece in use.
fn check_fixed(
    fixed: &Vec<FixedFunction>,
    assigned: &NameMap<Span>,
    assigns: &Vec<Assignment>,
    errors: &mut Vec<Error>,
) -> (r: Vec<bool>)
    ensures
        r@.len() == fixed@.len(),
        forall|i: int|
            0 <= i < fixed@.len() ==> (r@[i] <==> forall|j: int|
                0 <= j < fixed@[i].in_wires@.len() ==> assigned@.dom().contains(
                    (#[trigger] fixed@[i].in_wires@[j]).name@,
                )),
        final(errors)@.len() >= old(errors)@.len(),
        final(errors)@.len() == old(errors)@.len() ==> forall|i: int, j: int|
            0 <= i < fixed@.len() && fixed@[i].mandatory && 0 <= j < fixed@[i].in_wires@.len() ==> assigned@.dom().contains(
                (#[trigger] fixed@[i].in_wires@[j]).name@,
            ),
{
    let mut reads: Vec<String> = Vec::new();
    let mut i: usize = 0;
    while i < assigns.len()
        invariant
            i <= assigns@.len(),
        decreases assigns@.len() - i,
    {
        let refs = assigns[i].value.referenced_wires();
        let mut k: usize = 0;
        while k < refs.len()
            invariant
                k <= refs@.len(),
            decreases refs@.len() - k,
        {
            add_name(&mut reads, refs[k].as_str());
            k = k + 1;
        }
        i = i + 1;
    }
    let mut enabled: Vec<bool> = Vec::new();
    let mut partial: Vec<(usize, Vec<String>, Vec<String>)> = Vec::new();
    let mut i: usize = 0;
    while i < fixed.len()
        invariant
            i <= fixed@.len(),
            enabled@.len() == i,
            forall|a: int|
                0 <= a < i ==> (enabled@[a] <==> forall|j: int|
                    0 <= j < fixed@[a].in_wires@.len() ==> assigned@.dom().contains(
                        (#[trigger] fixed@[a].in_wires@[j]).name@,
                    )),
            errors@.len() >= old(errors)@.len(),
            errors@.len() == old(errors)@.len() ==> forall|a: int, j: int|
                0 <= a < i && fixed@[a].mandatory && 0 <= j < fixed@[a].in_wires@.len() ==> assigned@.dom().contains(
                    (#[trigger] fixed@[a].in_wires@[j]).name@,
                ),
        decreases fixed@.len() - i,
    {
        let f = &fixed[i];
        let mut found: Vec<String> = Vec::new();
        let mut missing: Vec<String> = Vec::new();
        let mut j: usize = 0;
        while j < f.in_wires.len()
            invariant
                j <= f.in_wires@.len(),
                i < fixed@.len(),
                f == &fixed@[i as int],
                missing@.len() == 0 <==> forall|x: int|
                    0 <= x < j ==> assigned@.dom().contains((#[trigger] f.in_wires@[x]).name@),
            decreases f.in_wires@.len() - j,
        {
            let name = &f.in_wires[j].name;
            if assigned.contains_key(name.as_str()) {
                found.push(name.clone());
            } else {
                missing.push(name.clone());
            }
            j = j + 1;
        }
        if missing.len() == 0 {
            enabled.push(true);
        } else {
            enabled.push(false);
            let output_read = match &f.out_wire {
                Some(d) => contains_name(&reads, d.name.as_str()),
                None => false,
            };
            if f.mandatory || output_read {
                let ghost at_start = errors@.len();
                let mut j: usize = 0;
                while j < missing.len()
                    invariant
                        j <= missing@.len(),
                        errors@.len() == at_start + j,
                    decreases missing@.len() - j,
                {
                    errors.push(Error::UnsetBuiltinWire(missing[j].clone()));
                    j = j + 1;
                }
            } else if found.len() > 0 {
                partial.push((i, found, missing));
            }
        }
        i = i + 1;
    }
    let ghost errors_after_enabling = errors@.len();
    let ghost enabled_at_end = enabled@;
    let mut used: Vec<String> = Vec::new();
    let mut i: usize = 0;
    while i < fixed.len()
        invariant
            i <= fixed@.len(),
            enabled@.len() == fixed@.len(),
            errors@.len() == errors_after_enabling,
        decreases fixed@.len() - i,
    {
        if enabled[i] {
            let f = &fixed[i];
            let mut j: usize = 0;
            while j < f.in_wires.len()
                invariant
                    j <= f.in_wires@.len(),
                decreases f.in_wires@.len() - j,
            {
                add_name(&mut used, f.in_wires[j].name.as_str());
                j = j + 1;
            }
        }
        i = i + 1;
    }
    let mut partial = partial;
    while partial.len() > 0
        invariant
            enabled@.len() == fixed@.len(),
            enabled@ == enabled_at_end,
            errors@.len() >= errors_after_enabling,
        decreases partial@.len(),
    {
        let (fi, found, missing) = partial.remove(0);
        let mut unused = false;
        let mut j: usize = 0;
        while j < found.len()
            invariant
                j <= found@.len(),
            decreases found@.len() - j,
        {
            if !contains_name(&used, found[j].as_str()) {
                unused = true;
            }
            j = j + 1;
        }
        if unused {
            let name = if fi < fixed.len() {
                fixed[fi].name.clone()
            } else {
                String::new()
            };
            errors.push(Error::PartialFixedInput { name, found_inputs: found, missing_inputs: missing });
        }
    }
    enabled
}

/// The action comes from one of the assignments: it sets one of the wires that the
/// assignment sets, by the assignment's expression (the same tree).
pub open spec fn assignment_action(a: Action, assigns: Seq<Assignment>) -> bool {
    a matches Action::Assign(name, e, _) && exists|i: int|
        0 <= i < assigns.len() && assigns_name(#[trigger] assigns[i], name@) && e.same_as(assigns[i].value)
}

/// An action of a cycle comes from an assignment, whose wire it sets by an expression
/// that reads what the assignment's expression reads, or is the action of a piece of
/// fixed functionality.
pub open spec fn action_origin(a: Action, assigns: Seq<Assignment>, fixed: Seq<FixedFunction>) -> bool {
    ||| assignment_action(a, assigns)
    ||| exists|f: int|
        0 <= f < fixed.len() && action_writes(#[trigger] fixed[f].action) == action_writes(a) && action_reads(
            fixed[f].action,
        ) == action_reads(a) && (fixed[f].action is Assign <==> a is Assign)
}

/// One of the actions is an assignment that computes the wire `name`.
pub open spec fn computes(actions: Seq<Action>, name: Seq<char>) -> bool {
    exists|k: int|
        0 <= k < actions.len() && (#[trigger] actions[k]) is Assign && action_writes(actions[k]) == Some(name)
}

/// The graph has an edge into each wire that the assignment sets, for the first `upto`
/// of them, from each wire that its expression reads.
pub open spec fn assignment_edges_in(g: Graph, a: Assignment, upto: int) -> bool {
    forall|k: int, w: Seq<char>|
        #![trigger g.has_named_edge(w, a.names@[k].0@)]
        0 <= k < upto && k < a.names@.len() && spec_referenced(a.value).contains(w) ==> g.has_named_edge(
            w,
            a.names@[k].0@,
        )
}

/// The graph has the edges of the first `upto` assignments.
pub open spec fn assignments_edges_in(g: Graph, assigns: Seq<Assignment>, upto: int) -> bool {
    forall|i: int| 0 <= i < upto ==> assignment_edges_in(g, #[trigger] assigns[i], assigns[i].names@.len() as int)
}

/// If the piece has an output wire, the graph has an edge into it from each of the
/// first `upto` inputs.
pub open spec fn fixed_edges_in(g: Graph, f: FixedFunction, upto: int) -> bool {
    f.out_wire matches Some(d) ==> forall|j: int|
        #![trigger g.has_named_edge(f.in_wires@[j].name@, d.name@)]
        0 <= j < upto && j < f.in_wires@.len() ==> g.has_named_edge(f.in_wires@[j].name@, d.name@)
}

/// The graph has the edges of the first `upto` pieces of fixed functionality that are
/// in use.
pub open spec fn all_fixed_edges_in(g: Graph, fixed: Seq<FixedFunction>, enabled: Seq<bool>, upto: int) -> bool {
    forall|i: int|
        0 <= i < upto && enabled[i] ==> fixed_edges_in(g, #[trigger] fixed[i], fixed[i].in_wires@.len() as int)
}

/// Wire `v` is computed from wire `w`: an assignment to `v` reads `w`, or a piece of
/// fixed functionality in use has `w` as an input and `v` as its output.
pub open spec fn computed_from(
    assigns: Seq<Assignment>,
    fixed: Seq<FixedFunction>,
    enabled: Seq<bool>,
    w: Seq<char>,
    v: Seq<char>,
) -> bool {
    ||| exists|i: int, k: int|
        0 <= i < assigns.len() && 0 <= k < assigns[i].names@.len() && (#[trigger] assigns[i].names@[k]).0@ == v
            && spec_referenced(assigns[i].value).contains(w)
    ||| exists|f: int, j: int|
        0 <= f < fixed.len() && enabled[f] && out_wire_named(fixed[f], v) && 0 <= j < fixed[f].in_wires@.len() && (
        #[trigger] fixed[f].in_wires@[j]).name@ == w
}

/// The wires, in a circle, are each computed from the one before.
pub open spec fn wire_loop(
    assigns: Seq<Assignment>,
    fixed: Seq<FixedFunction>,
    enabled: Seq<bool>,
    c: Seq<Seq<char>>,
) -> bool {
    &&& c.len() >= 1
    &&& forall|i: int| 0 <= i < c.len() ==> computed_from(assigns, fixed, enabled, #[trigger] c[i], c[(i + 1) % c.len() as int])
}

/// Each edge of the graph goes from a wire to one computed from it.
pub open spec fn edges_are_dependencies(
    g: Graph,
    assigns: Seq<Assignment>,
    fixed: Seq<FixedFunction>,
    enabled: Seq<bool>,
) -> bool {
    forall|k: int|
        0 <= k < g.edge_list().len() ==> computed_from(
            assigns,
            fixed,
            enabled,
            g.nodes()[(#[trigger] g.edge_list()[k]).0 as int],
            g.nodes()[g.edge_list()[k].1 as int],
        )
}

/// A graph that keeps the nodes and edges of `g0`, and whose new edges are
/// dependencies, has only dependencies as edges if `g0` had.
proof fn lemma_dependency_edges(
    g0: Graph,
    g: Graph,
    assigns: Seq<Assignment>,
    fixed: Seq<FixedFunction>,
    enabled: Seq<bool>,
)
    requires
        edges_are_dependencies(g0, assigns, fixed, enabled),
        g0.edges_in_range(),
        g0.nodes().len() <= g.nodes().len(),
        forall|i: int| 0 <= i < g0.nodes().len() ==> g.nodes()[i] == g0.nodes()[i],
        g0.edge_list().len() <= g.edge_list().len(),
        forall|k: int| 0 <= k < g0.edge_list().len() ==> g.edge_list()[k] == g0.edge_list()[k],
        forall|k: int|
            g0.edge_list().len() <= k < g.edge_list().len() ==> computed_from(
                assigns,
                fixed,
                enabled,
                g.nodes()[(#[trigger] g.edge_list()[k]).0 as int],
                g.nodes()[g.edge_list()[k].1 as int],
            ),
    ensures
        edges_are_dependencies(g, assigns, fixed, enabled),
{
    assert forall|k: int| 0 <= k < g.edge_list().len() implies computed_from(
        assigns,
        fixed,
        enabled,
        g.nodes()[(#[trigger] g.edge_list()[k]).0 as int],
        g.nodes()[g.edge_list()[k].1 as int],
    ) by {
        if k < g0.edge_list().len() {
            assert(g.edge_list()[k] == g0.edge_list()[k]);
            assert(g0.edge_list()[k].0 < g0.nodes().len());
        }
    }
}

/// A graph with the edges of all assignments and of the fixed functionality in use
/// has an edge for each dependency.
proof fn lemma_dependencies_are_edges(
    g: Graph,
    assigns: Seq<Assignment>,
    fixed: Seq<FixedFunction>,
    enabled: Seq<bool>,
    w: Seq<char>,
    v: Seq<char>,
)
    requires
        assignments_edges_in(g, assigns, assigns.len() as int),
        all_fixed_edges_in(g, fixed, enabled, fixed.len() as int),
        computed_from(assigns, fixed, enabled, w, v),
    ensures
        g.has_named_edge(w, v),
{
    if exists|i: int, k: int|
        0 <= i < assigns.len() && 0 <= k < assigns[i].names@.len() && (#[trigger] assigns[i].names@[k]).0@ == v
            && spec_referenced(assigns[i].value).contains(w) {
        let (i, k) = choose|i: int, k: int|
            0 <= i < assigns.len() && 0 <= k < assigns[i].names@.len() && (#[trigger] assigns[i].names@[k]).0@ == v
                && spec_referenced(assigns[i].value).contains(w);
        assert(assignment_edges_in(g, assigns[i], assigns[i].names@.len() as int));
        assert(g.has_named_edge(w, assigns[i].names@[k].0@));
    } else {
        let (f, j) = choose|f: int, j: int|
            0 <= f < fixed.len() && enabled[f] && out_wire_named(fixed[f], v) && 0 <= j < fixed[f].in_wires@.len() && (
            #[trigger] fixed[f].in_wires@[j]).name@ == w;
        assert(fixed_edges_in(g, fixed[f], fixed[f].in_wires@.len() as int));
        let d = fixed[f].out_wire->Some_0;
        assert(g.has_named_edge(fixed[f].in_wires@[j].name@, d.name@));
    }
}

/// Positions that increase from each wire of a sequence to the next increase from the
/// first to each later one.
proof fn lemma_increasing_positions(names: Seq<Seq<char>>, c: Seq<Seq<char>>, m: int)
    requires
        1 <= m < c.len(),
        forall|i: int| 0 <= i < c.len() - 1 ==> names.index_of(#[trigger] c[i]) < names.index_of(c[i + 1]),
    ensures
        names.index_of(c[0]) < names.index_of(c[m]),
    decreases m,
{
    if m > 1 {
        lemma_increasing_positions(names, c, m - 1);
        assert(names.index_of(c[m - 1]) < names.index_of(c[m - 1 + 1]));
    } else {
        assert(names.index_of(c[0]) < names.index_of(c[0int + 1]));
    }
}

/// A dependency goes forward in an order of the wires in which each edge of the graph
/// goes forward.
proof fn lemma_dependency_forward(
    g: Graph,
    names: Seq<Seq<char>>,
    assigns: Seq<Assignment>,
    fixed: Seq<FixedFunction>,
    enabled: Seq<bool>,
    w: Seq<char>,
    v: Seq<char>,
)
    requires
        g.edges_in_range(),
        forall|x: Seq<char>| #[trigger] names.contains(x) <==> g.nodes().contains(x),
        g.respects_edges(names),
        assignments_edges_in(g, assigns, assigns.len() as int),
        all_fixed_edges_in(g, fixed, enabled, fixed.len() as int),
        computed_from(assigns, fixed, enabled, w, v),
    ensures
        names.index_of(w) < names.index_of(v),
{
    lemma_dependencies_are_edges(g, assigns, fixed, enabled, w, v);
    let k = choose|k: int|
        0 <= k < g.edge_list().len() && g.nodes()[#[trigger] g.edge_list()[k].0 as int] == w && g.nodes()[g.edge_list()[
            k
        ].1 as int] == v;
    assert(g.nodes().contains(w));
    assert(g.nodes().contains(v));
    assert(names.contains(w));
    assert(names.contains(v));
    let p = names.index_of(w);
    let q = names.index_of(v);
    assert(g.has_named_edge(names[p], names[q]));
}

/// No circle of items, each related to the one before, fits an order of the items in
/// which each relation goes forward.
proof fn lemma_no_circle(names: Seq<Seq<char>>, c: Seq<Seq<char>>, rel: spec_fn(Seq<char>, Seq<char>) -> bool)
    requires
        c.len() >= 1,
        forall|w: Seq<char>, v: Seq<char>| #[trigger] rel(w, v) ==> names.index_of(w) < names.index_of(v),
    ensures
        !(forall|i: int| 0 <= i < c.len() ==> #[trigger] rel(c[i], c[(i + 1) % c.len() as int])),
{
    let n = c.len() as int;
    if forall|i: int| 0 <= i < c.len() ==> #[trigger] rel(c[i], c[(i + 1) % c.len() as int]) {
        if n == 1 {
            vstd::arithmetic::div_mod::lemma_small_mod(0, 1);
            assert((0int + 1) % n == 0);
            assert(rel(c[0], c[(0int + 1) % n]));
        } else {
            assert forall|i: int| 0 <= i < c.len() - 1 implies names.index_of(#[trigger] c[i]) < names.index_of(
                c[i + 1],
            ) by {
                vstd::arithmetic::div_mod::lemma_small_mod((i + 1) as nat, n as nat);
                assert(rel(c[i], c[(i + 1) % n]));
            }
            lemma_increasing_positions(names, c, n - 1);
            vstd::arithmetic::div_mod::lemma_small_mod(0, n as nat);
            assert((n - 1 + 1) % n == 0) by {
                vstd::arithmetic::div_mod::lemma_mod_self_0(n);
            }
            assert(rel(c[n - 1], c[(n - 1 + 1) % n]));
        }
    }
}

/// No circle of wires, each computed from the one before, fits an order of the
/// wires in which each dependency goes forward.
proof fn lemma_no_wire_loop(
    names: Seq<Seq<char>>,
    assigns: Seq<Assignment>,
    fixed: Seq<FixedFunction>,
    enabled: Seq<bool>,
    c: Seq<Seq<char>>,
)
    requires
        forall|w: Seq<char>, v: Seq<char>|
            #[trigger] computed_from(assigns, fixed, enabled, w, v) ==> names.index_of(w) < names.index_of(v),
    ensures
        !wire_loop(assigns, fixed, enabled, c),
{
    if c.len() >= 1 {
        let rel = |w: Seq<char>, v: Seq<char>| computed_from(assigns, fixed, enabled, w, v);
        lemma_no_circle(names, c, rel);
        if wire_loop(assigns, fixed, enabled, c) {
            assert forall|i: int| 0 <= i < c.len() implies #[trigger] rel(c[i], c[(i + 1) % c.len() as int]) by {
                assert(computed_from(assigns, fixed, enabled, c[i], c[(i + 1) % c.len() as int]));
            }
        }
    }
}

/// The actions of a cycle: assignments and reads by fixed functionality in an order
/// where every wire is computed before it is read, then the writes; or `None`, with
/// the circle of wires that read each other in `errors`.
fn order_actions(
    assigns: &Vec<Assignment>,
    assignment_of: &NameMap<usize>,
    declared: &Declared,
    fixed: &Vec<FixedFunction>,
    enabled: &Vec<bool>,
    errors: &mut Vec<Error>,
) -> (r: Option<Vec<Action>>)
    requires
        forall|i: int| 0 <= i < assigns@.len() ==> (#[trigger] assigns@[i]).value.well_formed(),
        forall|k: Seq<char>| #[trigger] assignment_of@.dom().contains(k) ==> assignment_of@[k] < assigns@.len(),
        forall|k: Seq<char>|
            #[trigger] assignment_of@.dom().contains(k) ==> assigns_name(assigns@[assignment_of@[k] as int], k),
        declared.wf(),
        forall|k: Seq<char>|
            #[trigger] declared.builtin_outputs@.dom().contains(k) ==> fixed_output_of(
                fixed@,
                declared.builtin_outputs@[k],
                k,
            ),
        forall|i: int| 0 <= i < fixed@.len() ==> (#[trigger] fixed@[i]).wf(),
        enabled@.len() == fixed@.len(),
        forall|k: Seq<char>| #[trigger] assignment_of@.dom().contains(k) ==> declared.widths@.dom().contains(k),
    ensures
        r is None <==> exists|c: Seq<Seq<char>>| #[trigger] wire_loop(assigns@, fixed@, enabled@, c),
        r is None ==> final(errors)@.len() == old(errors)@.len() + 1 && final(errors)@.drop_last() == old(errors)@
            && (final(errors)@.last() matches Error::WireLoop(l) && wire_loop(assigns@, fixed@, enabled@, names_of(l@))),
        r is Some ==> final(errors)@ == old(errors)@,
        r matches Some(actions) ==> forall|i: int| 0 <= i < actions@.len() ==> (#[trigger] actions@[i]).wf(),
        r matches Some(actions) ==> computed_before_read(actions@),
        r matches Some(actions) ==> writes_last(actions@),
        r matches Some(actions) ==> produced_before_read(actions@),
        r matches Some(actions) ==> forall|k: Seq<char>|
            #[trigger] assignment_of@.dom().contains(k) ==> computes(actions@, k),
        r matches Some(actions) ==> forall|x: int|
            0 <= x < actions@.len() ==> action_origin(#[trigger] actions@[x], assigns@, fixed@),
{
    let mut graph = Graph::new();
    let mut i: usize = 0;
    while i < assigns.len()
        invariant
            i <= assigns@.len(),
            graph.edges_in_range(),
                edges_are_dependencies(graph, assigns@, fixed@, enabled@),
            assignments_edges_in(graph, assigns@, i as int),
            forall|b: int, j: int|
                0 <= b < i && 0 <= j < assigns@[b].names@.len() ==> graph.nodes().contains(
                    (#[trigger] assigns@[b].names@[j]).0@,
                ),
        decreases assigns@.len() - i,
    {
        let a = &assigns[i];
        let refs = a.value.referenced_wires();
        let mut k: usize = 0;
        while k < a.names.len()
            invariant
                i < assigns@.len(),
                a == &assigns@[i as int],
                names_of(refs@).to_set() == spec_referenced(a.value),
                k <= a.names@.len(),
                graph.edges_in_range(),
                edges_are_dependencies(graph, assigns@, fixed@, enabled@),
                assignments_edges_in(graph, assigns@, i as int),
                assignment_edges_in(graph, *a, k as int),
                forall|b: int, j: int|
                    0 <= b < i && 0 <= j < assigns@[b].names@.len() ==> graph.nodes().contains(
                        (#[trigger] assigns@[b].names@[j]).0@,
                    ),
                forall|j: int| 0 <= j < k ==> graph.nodes().contains((#[trigger] a.names@[j]).0@),
            decreases a.names@.len() - k,
        {
            let target = a.names[k].0.as_str();
            let ghost g0 = graph;
            graph.add_node(target);
            proof {
                graph.lemma_extends_edges(g0);
                graph.lemma_extends_nodes(g0);
                lemma_dependency_edges(g0, graph, assigns@, fixed@, enabled@);
            }
            let mut j: usize = 0;
            while j < refs.len()
                invariant
                    i < assigns@.len(),
                    a == &assigns@[i as int],
                    k < a.names@.len(),
                    target@ == a.names@[k as int].0@,
                    names_of(refs@).to_set() == spec_referenced(a.value),
                    j <= refs@.len(),
                    graph.edges_in_range(),
                edges_are_dependencies(graph, assigns@, fixed@, enabled@),
                    assignments_edges_in(graph, assigns@, i as int),
                    assignment_edges_in(graph, *a, k as int),
                    forall|x: int| 0 <= x < j ==> graph.has_named_edge(#[trigger] names_of(refs@)[x], target@),
                    forall|b: int, y: int|
                        0 <= b < i && 0 <= y < assigns@[b].names@.len() ==> graph.nodes().contains(
                            (#[trigger] assigns@[b].names@[y]).0@,
                        ),
                    forall|y: int| 0 <= y <= k ==> graph.nodes().contains((#[trigger] a.names@[y]).0@),
                decreases refs@.len() - j,
            {
                let source = refs[j].as_str();
                let ghost g1 = graph;
                graph.insert(source, target);
                proof {
                    graph.lemma_extends_edges(g1);
                    graph.lemma_extends_nodes(g1);
                    assert(spec_referenced(a.value).contains(source@)) by {
                        assert(names_of(refs@)[j as int] == source@);
                        assert(names_of(refs@).to_set().contains(source@));
                    }
                    assert(assigns@[i as int].names@[k as int].0@ == target@);
                    lemma_dependency_edges(g1, graph, assigns@, fixed@, enabled@);
                    assert forall|x: int| 0 <= x < j + 1 implies graph.has_named_edge(
                        #[trigger] names_of(refs@)[x],
                        target@,
                    ) by {
                        if x < j {
                            assert(g1.has_named_edge(names_of(refs@)[x], target@));
                        } else {
                            assert(names_of(refs@)[x] == source@);
                        }
                    }
                }
                j = j + 1;
            }
            proof {
                assert forall|k2: int, w: Seq<char>|
                    #![trigger graph.has_named_edge(w, a.names@[k2].0@)]
                    0 <= k2 < k + 1 && k2 < a.names@.len() && spec_referenced(a.value).contains(w) implies graph.has_named_edge(
                    w,
                    a.names@[k2].0@,
                ) by {
                    if k2 == k {
                        assert(names_of(refs@).to_set().contains(w));
                        let x = names_of(refs@).index_of(w);
                        assert(graph.has_named_edge(names_of(refs@)[x], target@));
                    }
                }
            }
            k = k + 1;
        }
        proof {
            assert forall|i2: int| 0 <= i2 < i + 1 implies assignment_edges_in(
                graph,
                #[trigger] assigns@[i2],
                assigns@[i2].names@.len() as int,
            ) by {
                if i2 < i {
                    assert(assignment_edges_in(graph, assigns@[i2], assigns@[i2].names@.len() as int));
                }
            }
        }
        i = i + 1;
    }
    let mut i: usize = 0;
    while i < fixed.len()
        invariant
            i <= fixed@.len(),
            enabled@.len() == fixed@.len(),
            graph.edges_in_range(),
                edges_are_dependencies(graph, assigns@, fixed@, enabled@),
            assignments_edges_in(graph, assigns@, assigns@.len() as int),
            all_fixed_edges_in(graph, fixed@, enabled@, i as int),
            forall|b: int, j: int|
                0 <= b < assigns@.len() && 0 <= j < assigns@[b].names@.len() ==> graph.nodes().contains(
                    (#[trigger] assigns@[b].names@[j]).0@,
                ),
        decreases fixed@.len() - i,
    {
        if enabled[i] {
            match &fixed[i].out_wire {
                Some(d) => {
                    let ghost g0 = graph;
                    graph.add_node(d.name.as_str());
                    proof {
                        graph.lemma_extends_edges(g0);
                        graph.lemma_extends_nodes(g0);
                        lemma_dependency_edges(g0, graph, assigns@, fixed@, enabled@);
                        assert(assignments_edges_in(graph, assigns@, assigns@.len() as int)) by {
                            assert forall|i2: int| 0 <= i2 < assigns@.len() implies assignment_edges_in(
                                graph,
                                #[trigger] assigns@[i2],
                                assigns@[i2].names@.len() as int,
                            ) by {
                                assert(assignment_edges_in(g0, assigns@[i2], assigns@[i2].names@.len() as int));
                            }
                        }
                        assert(all_fixed_edges_in(graph, fixed@, enabled@, i as int)) by {
                            assert forall|i2: int| 0 <= i2 < i && enabled@[i2] implies fixed_edges_in(
                                graph,
                                #[trigger] fixed@[i2],
                                fixed@[i2].in_wires@.len() as int,
                            ) by {
                                assert(fixed_edges_in(g0, fixed@[i2], fixed@[i2].in_wires@.len() as int));
                            }
                        }
                    }
                    let mut j: usize = 0;
                    while j < fixed[i].in_wires.len()
                        invariant
                            i < fixed@.len(),
                            enabled@.len() == fixed@.len(),
                            enabled@[i as int],
                            fixed@[i as int].out_wire == Some(*d),
                            j <= fixed@[i as int].in_wires@.len(),
                            graph.edges_in_range(),
                edges_are_dependencies(graph, assigns@, fixed@, enabled@),
                            assignments_edges_in(graph, assigns@, assigns@.len() as int),
                            all_fixed_edges_in(graph, fixed@, enabled@, i as int),
                            fixed_edges_in(graph, fixed@[i as int], j as int),
                            forall|b: int, y: int|
                                0 <= b < assigns@.len() && 0 <= y < assigns@[b].names@.len() ==> graph.nodes().contains(
                                    (#[trigger] assigns@[b].names@[y]).0@,
                                ),
                        decreases fixed@[i as int].in_wires@.len() - j,
                    {
                        let ghost g1 = graph;
                        graph.insert(fixed[i].in_wires[j].name.as_str(), d.name.as_str());
                        proof {
                            graph.lemma_extends_edges(g1);
                            graph.lemma_extends_nodes(g1);
                            assert(out_wire_named(fixed@[i as int], d.name@));
                            assert(fixed@[i as int].in_wires@[j as int].name@ == fixed@[i as int].in_wires@[j as int].name@);
                            lemma_dependency_edges(g1, graph, assigns@, fixed@, enabled@);
                            let f = fixed@[i as int];
                            assert forall|i2: int| 0 <= i2 < assigns@.len() implies assignment_edges_in(
                                graph,
                                #[trigger] assigns@[i2],
                                assigns@[i2].names@.len() as int,
                            ) by {
                                assert(assignment_edges_in(g1, assigns@[i2], assigns@[i2].names@.len() as int));
                            }
                            assert forall|i2: int| 0 <= i2 < i && enabled@[i2] implies fixed_edges_in(
                                graph,
                                #[trigger] fixed@[i2],
                                fixed@[i2].in_wires@.len() as int,
                            ) by {
                                assert(fixed_edges_in(g1, fixed@[i2], fixed@[i2].in_wires@.len() as int));
                            }
                            assert forall|x: int|
                                #![trigger graph.has_named_edge(f.in_wires@[x].name@, d.name@)]
                                0 <= x < j + 1 && x < f.in_wires@.len() implies graph.has_named_edge(
                                f.in_wires@[x].name@,
                                d.name@,
                            ) by {
                                if x < j {
                                    assert(g1.has_named_edge(f.in_wires@[x].name@, d.name@));
                                }
                            }
                        }
                        j = j + 1;
                    }
                },
                None => {},
            }
        }
        proof {
            assert forall|i2: int| 0 <= i2 < i + 1 && enabled@[i2] implies fixed_edges_in(
                graph,
                #[trigger] fixed@[i2],
                fixed@[i2].in_wires@.len() as int,
            ) by {
                if i2 < i {
                    assert(fixed_edges_in(graph, fixed@[i2], fixed@[i2].in_wires@.len() as int));
                }
            }
        }
        i = i + 1;
    }
    let order = match graph.topological_sort() {
        Err(cycle) => {
            proof {
                let cyc = choose|cyc: Seq<usize>|
                    is_cycle(cyc, graph.nodes().len(), graph.edge_list()) && cycle@.len() == cyc.len() && forall|i: int|
                        0 <= i < cyc.len() ==> (#[trigger] cycle@[i])@ == graph.nodes()[cyc[i] as int];
                let c = names_of(cycle@);
                assert forall|i: int| 0 <= i < c.len() implies computed_from(
                    assigns@,
                    fixed@,
                    enabled@,
                    #[trigger] c[i],
                    c[(i + 1) % c.len() as int],
                ) by {
                    let n = c.len() as int;
                    let i2 = (i + 1) % n;
                    assert(has_edge(graph.edge_list(), cyc[i] as int, cyc[i2] as int));
                    let k = choose|k: int|
                        0 <= k < graph.edge_list().len() && graph.edge_list()[k].0 == cyc[i] as int && graph.edge_list()[k].1
                            == cyc[i2] as int;
                    assert(cycle@[i]@ == graph.nodes()[cyc[i] as int]);
                    assert(cycle@[i2]@ == graph.nodes()[cyc[i2] as int]);
                }
                assert(wire_loop(assigns@, fixed@, enabled@, c));
            }
            errors.push(Error::WireLoop(cycle));
            return None;
        },
        Ok(order) => order,
    };
    proof {
        assert forall|w: Seq<char>, v: Seq<char>| #[trigger] computed_from(assigns@, fixed@, enabled@, w, v) implies names_of(
            order@,
        ).index_of(w) < names_of(order@).index_of(v) by {
            lemma_dependency_forward(graph, names_of(order@), assigns@, fixed@, enabled@, w, v);
        }
        assert forall|c: Seq<Seq<char>>| !(#[trigger] wire_loop(assigns@, fixed@, enabled@, c)) by {
            lemma_no_wire_loop(names_of(order@), assigns@, fixed@, enabled@, c);
        }
    }
    let ghost names = names_of(order@);
    let mut actions: Vec<Action> = Vec::new();
    let ghost mut pos: Seq<int> = Seq::empty();
    let mut k: usize = 0;
    while k < order.len()
        invariant
            k <= order@.len(),
            names == names_of(order@),
            names.no_duplicates(),
            graph.respects_edges(names),
            assignments_edges_in(graph, assigns@, assigns@.len() as int),
            all_fixed_edges_in(graph, fixed@, enabled@, fixed@.len() as int),
            forall|i: int| 0 <= i < assigns@.len() ==> (#[trigger] assigns@[i]).value.well_formed(),
            forall|x: Seq<char>| #[trigger] assignment_of@.dom().contains(x) ==> assignment_of@[x] < assigns@.len(),
            forall|x: Seq<char>|
                #[trigger] assignment_of@.dom().contains(x) ==> assigns_name(assigns@[assignment_of@[x] as int], x),
            declared.wf(),
            forall|x: Seq<char>|
                #[trigger] declared.builtin_outputs@.dom().contains(x) ==> fixed_output_of(
                    fixed@,
                    declared.builtin_outputs@[x],
                    x,
                ),
            forall|i: int| 0 <= i < fixed@.len() ==> (#[trigger] fixed@[i]).wf(),
            enabled@.len() == fixed@.len(),
            forall|i: int| 0 <= i < actions@.len() ==> (#[trigger] actions@[i]).wf(),
            pos.len() == actions@.len(),
            forall|x: int| 0 <= x < pos.len() ==> 0 <= #[trigger] pos[x] < k,
            forall|x: Seq<char>| #[trigger] assignment_of@.dom().contains(x) ==> declared.widths@.dom().contains(x),
            forall|p: int| 0 <= p < k && assignment_of@.dom().contains(#[trigger] names[p]) ==> computes(actions@, names[p]),
            forall|x: int| 0 <= x < actions@.len() ==> action_origin(#[trigger] actions@[x], assigns@, fixed@),
            forall|x: int|
                0 <= x < pos.len() ==> action_writes(#[trigger] actions@[x]) == Some(names[pos[x]]),
            forall|x: int, w: Seq<char>|
                #![trigger action_reads(actions@[x]).contains(w)]
                0 <= x < pos.len() && action_reads(actions@[x]).contains(w) ==> graph.has_named_edge(w, names[pos[x]]),
            computed_before_read(actions@),
        decreases order@.len() - k,
    {
        let name = order[k].as_str();
        let ghost before = actions@;
        let mut added = false;
        match assignment_of.get(name) {
            Some(ai) => {
                let ai = *ai;
                match declared.widths.get(name) {
                    Some(w) => {
                        assert(assigns@[ai as int].value.well_formed());
                        let value = assigns[ai].value.copy();
                        let action = Action::Assign(order[k].clone(), value, *w);
                        proof {
                            let a = assigns@[ai as int];
                            assert(action_reads(action) == spec_referenced(a.value));
                            assert(assigns_name(a, name@));
                            let j = choose|j: int| 0 <= j < a.names@.len() && (#[trigger] a.names@[j]).0@ == name@;
                            assert(assignment_edges_in(graph, a, a.names@.len() as int));
                            assert forall|w: Seq<char>| action_reads(action).contains(w) implies graph.has_named_edge(
                                w,
                                names[k as int],
                            ) by {
                                assert(graph.has_named_edge(w, a.names@[j].0@));
                            }
                        }
                        proof {
                            let a = assigns@[ai as int];
                            assert(assigns_name(a, name@));
                            assert(action_origin(action, assigns@, fixed@));
                        }
                        actions.push(action);
                        added = true;
                        assert(actions@[actions@.len() - 1] == action);
                        assert(computes(actions@, names[k as int]));
                    },
                    None => {},
                }
            },
            None => {
                match declared.builtin_outputs.get(name) {
                    Some(fi) => {
                        let fi = *fi;
                        if fi < fixed.len() && enabled[fi] {
                            assert(fixed@[fi as int].wf());
                            let action = fixed[fi].action.copy();
                            assert(action_writes(fixed@[fi as int].action) == action_writes(action));
                            assert(action_origin(action, assigns@, fixed@));
                            proof {
                                let f = fixed@[fi as int];
                                assert(fixed_output_of(fixed@, fi, name@));
                                let d = f.out_wire->0;
                                assert(fixed_edges_in(graph, f, f.in_wires@.len() as int));
                                assert forall|w: Seq<char>| action_reads(action).contains(w) implies graph.has_named_edge(
                                    w,
                                    names[k as int],
                                ) by {
                                    assert(f.has_input(w));
                                    let j = choose|j: int| 0 <= j < f.in_wires@.len() && (#[trigger] f.in_wires@[j]).name@ == w;
                                    assert(graph.has_named_edge(f.in_wires@[j].name@, d.name@));
                                }
                            }
                            actions.push(action);
                            added = true;
                        }
                    },
                    None => {},
                }
            },
        }
        proof {
            assert forall|p: int| 0 <= p < k + 1 && assignment_of@.dom().contains(#[trigger] names[p]) implies computes(
                actions@,
                names[p],
            ) by {
                if p < k {
                    assert(computes(before, names[p]));
                    let x = choose|x: int|
                        0 <= x < before.len() && (#[trigger] before[x]) is Assign && action_writes(before[x]) == Some(names[p]);
                    assert(actions@[x] == before[x]);
                }
            }
            assert forall|x: int| 0 <= x < actions@.len() implies action_origin(#[trigger] actions@[x], assigns@, fixed@) by {
                if x < before.len() {
                    assert(actions@[x] == before[x]);
                }
            }
            if added {
                let new_pos = pos.push(k as int);
                let acts = actions@;
                let last = acts.len() - 1;
                assert(acts.drop_last() == before);
                assert forall|x: int| 0 <= x < last implies !action_reads(#[trigger] acts[x]).contains(names[k as int]) by {
                    assert(acts[x] == before[x]);
                    if action_reads(acts[x]).contains(names[k as int]) {
                        assert(graph.has_named_edge(names[k as int], names[pos[x]]));
                    }
                }
                assert forall|x: int| 0 <= x < last implies action_writes(#[trigger] acts[x]) != Some(names[k as int]) by {
                    assert(acts[x] == before[x]);
                    assert(pos[x] != k);
                }
                assert forall|x: int, y: int|
                    #![trigger acts[x], acts[y]]
                    0 <= x < y < acts.len() && action_writes(acts[y]) is Some implies !action_reads(acts[x]).contains(
                        action_writes(acts[y])->0,
                    ) by {
                    if y < last {
                        assert(acts[x] == before[x]);
                        assert(acts[y] == before[y]);
                    }
                }
                assert forall|x: int, y: int|
                    #![trigger acts[x], acts[y]]
                    0 <= x < y < acts.len() && action_writes(acts[x]) is Some implies action_writes(acts[y])
                        != action_writes(acts[x]) by {
                    if y < last {
                        assert(acts[x] == before[x]);
                        assert(acts[y] == before[y]);
                    }
                }
                pos = new_pos;
            }
        }
        k = k + 1;
    }
    proof {
        assert forall|x: Seq<char>| #[trigger] assignment_of@.dom().contains(x) implies computes(actions@, x) by {
            let ai = assignment_of@[x];
            let a = assigns@[ai as int];
            assert(assigns_name(a, x));
            let j = choose|j: int| 0 <= j < a.names@.len() && (#[trigger] a.names@[j]).0@ == x;
            assert(graph.nodes().contains(assigns@[ai as int].names@[j].0@));
            assert(names.contains(x));
            let p = names.index_of(x);
            assert(names[p] == x);
        }
    }
    proof {
        let acts = actions@;
        assert forall|x: int, y: int|
            #![trigger acts[x], acts[y]]
            0 <= x < y < acts.len() && action_writes(acts[x]) is None implies action_writes(acts[y]) is None by {
            assert(action_writes(acts[x]) == Some(names[pos[x]]));
        }
        assert forall|x: int, j: int|
            #![trigger acts[x], acts[j]]
            0 <= x < acts.len() && 0 <= j < acts.len() && action_writes(acts[j]) is Some && action_reads(
                acts[x],
            ).contains(action_writes(acts[j])->0) implies j < x by {
            if j == x {
                let w = action_writes(acts[x])->0;
                assert(action_writes(acts[x]) == Some(names[pos[x]]));
                assert(action_reads(acts[x]).contains(w));
                assert(graph.has_named_edge(w, names[pos[x]]));
                assert(graph.has_named_edge(names[pos[x]], names[pos[x]]));
            }
        }
    }
    let mut i: usize = 0;
    while i < fixed.len()
        invariant
            i <= fixed@.len(),
            forall|x: int| 0 <= x < fixed@.len() ==> (#[trigger] fixed@[x]).wf(),
            enabled@.len() == fixed@.len(),
            forall|x: int| 0 <= x < actions@.len() ==> (#[trigger] actions@[x]).wf(),
            computed_before_read(actions@),
            writes_last(actions@),
            produced_before_read(actions@),
            forall|x: Seq<char>| #[trigger] assignment_of@.dom().contains(x) ==> computes(actions@, x),
            forall|x: int| 0 <= x < actions@.len() ==> action_origin(#[trigger] actions@[x], assigns@, fixed@),
        decreases fixed@.len() - i,
    {
        if enabled[i] && fixed[i].out_wire.is_none() {
            assert(fixed@[i as int].wf());
            let ghost before = actions@;
            let action = fixed[i].action.copy();
            assert(action_writes(fixed@[i as int].action) == action_writes(action));
            assert(action_origin(action, assigns@, fixed@));
            actions.push(action);
            proof {
                assert forall|x: int| 0 <= x < actions@.len() implies action_origin(#[trigger] actions@[x], assigns@, fixed@) by {
                    if x < before.len() {
                        assert(actions@[x] == before[x]);
                    }
                }
                assert forall|x: Seq<char>| #[trigger] assignment_of@.dom().contains(x) implies computes(actions@, x) by {
                    assert(computes(before, x));
                    let y = choose|y: int|
                        0 <= y < before.len() && (#[trigger] before[y]) is Assign && action_writes(before[y]) == Some(x);
                    assert(actions@[y] == before[y]);
                }
                let acts = actions@;
                assert(action_writes(acts[acts.len() - 1]) is None);
                assert forall|x: int, j: int|
                    #![trigger acts[x], acts[j]]
                    0 <= x < acts.len() && 0 <= j < acts.len() && action_writes(acts[j]) is Some && action_reads(
                        acts[x],
                    ).contains(action_writes(acts[j])->0) implies j < x by {
                    assert(j < acts.len() - 1);
                    assert(acts[j] == before[j]);
                    if x < acts.len() - 1 {
                        assert(acts[x] == before[x]);
                    }
                }
                assert forall|x: int, y: int|
                    #![trigger acts[x], acts[y]]
                    0 <= x < y < acts.len() && action_writes(acts[x]) is None implies action_writes(acts[y]) is None by {
                    assert(acts[x] == before[x]);
                    if y < acts.len() - 1 {
                        assert(acts[y] == before[y]);
                    }
                }
                assert forall|x: int, y: int|
                    #![trigger acts[x], acts[y]]
                    0 <= x < y < acts.len() && action_writes(acts[y]) is Some implies !action_reads(acts[x]).contains(
                        action_writes(acts[y])->0,
                    ) by {
                    assert(acts[x] == before[x]);
                    assert(acts[y] == before[y]);
                }
                assert forall|x: int, y: int|
                    #![trigger acts[x], acts[y]]
                    0 <= x < y < acts.len() && action_writes(acts[x]) is Some implies action_writes(acts[y])
                        != action_writes(acts[x]) by {
                    assert(acts[x] == before[x]);
                    if y < acts.len() - 1 {
                        assert(acts[y] == before[y]);
                    }
                }
            }
        }
        i = i + 1;
    }
    Some(actions)
}

impl FixedFunction {
    /// Whether the piece can be carried out: see `wf`.
    pub fn is_wf(&self) -> (r: bool)
        ensures
            r == self.wf(),
    {
        let mut i: usize = 0;
        while i < self.in_wires.len()
            invariant
                i <= self.in_wires@.len(),
                forall|k: int| 0 <= k < i ==> (#[trigger] self.in_wires@[k]).width.valid(),
            decreases self.in_wires@.len() - i,
        {
            if !self.in_wires[i].width.valid_width() {
                return false;
            }
            i = i + 1;
        }
        let out_ok = match &self.out_wire {
            Some(d) => d.width.valid_width(),
            None => true,
        };
        let action_ok = match &self.action {
            Action::Assign(_, e, w) => e.is_well_formed() && w.valid_width(),
            Action::ReadMemory { bytes, .. } => 1 <= *bytes && *bytes <= 16,
            Action::WriteMemory { bytes, .. } => 1 <= *bytes && *bytes <= 16,
            _ => true,
        };
        if !out_ok || !action_ok {
            return false;
        }
        let writes_ok = match (self.action.written_wire(), &self.out_wire) {
            (Some(w), Some(d)) => str_eq(w.as_str(), d.name.as_str()),
            (None, None) => true,
            _ => false,
        };
        if !writes_ok {
            return false;
        }
        let reads = self.action.read_wires();
        let mut k: usize = 0;
        while k < reads.len()
            invariant
                k <= reads@.len(),
                names_of(reads@).to_set() == action_reads(self.action),
                forall|j: int| 0 <= j < k ==> self.has_input((#[trigger] reads@[j])@),
            decreases reads@.len() - k,
        {
            if !self.input_named(reads[k].as_str()) {
                assert(action_reads(self.action).contains(reads@[k as int]@)) by {
                    assert(names_of(reads@)[k as int] == reads@[k as int]@);
                    assert(names_of(reads@).contains(reads@[k as int]@));
                    assert(names_of(reads@).to_set().contains(reads@[k as int]@));
                }
                return false;
            }
            k = k + 1;
        }
        assert forall|w: Seq<char>| #[trigger] action_reads(self.action).contains(w) implies self.has_input(w) by {
            assert(names_of(reads@).to_set().contains(w));
            let j = names_of(reads@).index_of(w);
            assert(reads@[j]@ == w);
        }
        true
    }

    /// Whether one of the piece's inputs is the wire `name`.
    fn input_named(&self, name: &str) -> (r: bool)
        ensures
            r == self.has_input(name@),
    {
        let mut i: usize = 0;
        while i < self.in_wires.len()
            invariant
                i <= self.in_wires@.len(),
                forall|j: int| 0 <= j < i ==> (#[trigger] self.in_wires@[j]).name@ != name@,
            decreases self.in_wires@.len() - i,
        {
            if str_eq(self.in_wires[i].name.as_str(), name) {
                return true;
            }
            i = i + 1;
        }
        false
    }
}

/// A checked program: the values of its constants, the actions of one cycle in the
/// order they are carried out, and its register banks.
#[derive(Debug)]
pub struct Program {
    constants: WireValues,
    actions: Vec<Action>,
    register_banks: Vec<RegisterBank>,
    defaulted: Vec<String>,
    widths: WireWidths,
    fixed_inputs: Vec<String>,
    fixed_outputs: Vec<String>,
}

/// What a program checked for the Y86-64 processor owes to its statements: each wire is
/// assigned at most once, each declared wire is assigned, no wires depend on each other
/// in a loop, each assigned wire is computed in a cycle by an action that comes from its
/// assignment, the actions compute each wire before reading it (and read a computed
/// wire only after computing it) and write last, each constant has the value of its
/// expression over the constants, each register bank is well named and is the bank
/// that its declaration gives, and `Stat` and `pc` are assigned.
pub open spec fn y86_checked(p: Program, sts: Seq<Statement>) -> bool {
    &&& assigned_once(statement_assignments(sts))
    &&& declared_wires_assigned(statement_wire_decls(sts), statement_assignments(sts))
    &&& forall|c: Seq<Seq<char>>| !(#[trigger] wire_loop(statement_assignments(sts), Seq::empty(), Seq::empty(), c))
    &&& p.computes_assignments(statement_assignments(sts))
    &&& forall|x: int|
        0 <= x < p.spec_actions().len() && (#[trigger] p.spec_actions()[x]) is Assign ==> assignment_action(
            p.spec_actions()[x],
            statement_assignments(sts),
        )
    &&& computed_before_read(p.spec_actions()) && writes_last(p.spec_actions()) && produced_before_read(
                p.spec_actions(),
            )
    &&& constants_resolved(statement_const_decls(sts), p.spec_constants())
    &&& banks_from_decls(p.spec_banks(), statement_bank_decls(sts), p.spec_constants())
    &&& forall|i: int| 0 <= i < statement_bank_decls(sts).len() ==> well_named(#[trigger] statement_bank_decls(sts)[i])
    &&& exists|a: int|
        0 <= a < statement_assignments(sts).len() && #[trigger] assigns_name(statement_assignments(sts)[a], "Stat"@)
    &&& exists|a: int|
        0 <= a < statement_assignments(sts).len() && #[trigger] assigns_name(statement_assignments(sts)[a], "pc"@)
}

impl Program {
    #[verifier::type_invariant]
    pub closed spec fn inv(self) -> bool {
        &&& values_valid(self.constants)
        &&& forall|i: int| 0 <= i < self.actions@.len() ==> (#[trigger] self.actions@[i]).wf()
        &&& computed_before_read(self.actions@)
        &&& forall|i: int| 0 <= i < self.register_banks@.len() ==> (#[trigger] self.register_banks@[i]).wf()
    }

    pub closed spec fn spec_constants(self) -> WireValues {
        self.constants
    }

    pub closed spec fn spec_actions(self) -> Seq<Action> {
        self.actions@
    }

    pub closed spec fn spec_banks(self) -> Seq<RegisterBank> {
        self.register_banks@
    }

    /// Each wire that an assignment sets is computed by one of the actions of a cycle.
    pub open spec fn computes_assignments(self, assigns: Seq<Assignment>) -> bool {
        forall|i: int, j: int|
            0 <= i < assigns.len() && 0 <= j < assigns[i].names@.len() ==> computes(
                self.spec_actions(),
                (#[trigger] assigns[i].names@[j]).0@,
            )
    }

    /// Checks a program for the fixed functionality of the Y86-64 processor: the same
    /// checks as `new` with `y86_fixed_functions()`.
    pub fn new_y86(statements: Vec<Statement>) -> (r: Result<Program, Error>)
        ensures
            r matches Ok(p) ==> y86_checked(p, statements@),
            r matches Err(e) ==> (e matches Error::MultipleErrors(es) && es@.len() > 0) || e is InvalidWireWidth
                || e is InternalParserErrorNear,
    {
        Program::build_y86(statements, false)
    }

    /// Checks a program for the fixed functionality of the Y86-64 processor; with
    /// `strict_muxes`, each mux must also have one option whose condition is always
    /// true, as its last.
    pub(crate) fn build_y86(statements: Vec<Statement>, strict_muxes: bool) -> (r: Result<Program, Error>)
        ensures
            r matches Ok(p) ==> y86_checked(p, statements@),
            r matches Err(e) ==> (e matches Error::MultipleErrors(es) && es@.len() > 0) || e is InvalidWireWidth
                || e is InternalParserErrorNear,
    {
        let fixed = y86_fixed_functions();
        assert(forall|f: int| 0 <= f < fixed@.len() ==> !((#[trigger] fixed@[f]).action is Assign));
        let ghost sts = statements@;
        let ghost fx = fixed@;
        let r = Program::build(statements, fixed, strict_muxes);
        proof {
            if r is Ok {
                lemma_sole_input(fx[0], "Stat"@, WireWidth::Bits(3));
                lemma_sole_input(fx[1], "pc"@, WireWidth::Bits(64));
                let p = r->Ok_0;
                assert forall|x: int|
                    0 <= x < p.spec_actions().len() && (#[trigger] p.spec_actions()[x]) is Assign implies assignment_action(
                        p.spec_actions()[x],
                        statement_assignments(sts),
                    ) by {
                    assert(action_origin(p.spec_actions()[x], statement_assignments(sts), fx));
                }
            }
        }
        r
    }

    /// Checks a program with the given fixed functionality. The mux rules that
    /// `parse_y86_hcl` applies are not checked here: a mux may have an option whose
    /// condition is always true before its last one.
    pub fn new(statements: Vec<Statement>, fixed_functions: Vec<FixedFunction>) -> (r: Result<Program, Error>)
        ensures
            r is Ok ==> assigned_once(statement_assignments(statements@)),
            r is Ok ==> declared_wires_assigned(statement_wire_decls(statements@), statement_assignments(statements@)),
            r is Ok ==> forall|c: Seq<Seq<char>>|
                !(#[trigger] wire_loop(statement_assignments(statements@), Seq::empty(), Seq::empty(), c)),
            r matches Ok(p) ==> p.computes_assignments(statement_assignments(statements@)),
            r matches Ok(p) ==> computed_before_read(p.spec_actions()) && writes_last(p.spec_actions()) && produced_before_read(
                p.spec_actions(),
            ),
            r matches Ok(p) ==> constants_resolved(statement_const_decls(statements@), p.spec_constants()),
            r matches Ok(p) ==> banks_from_decls(p.spec_banks(), statement_bank_decls(statements@), p.spec_constants()),
            r matches Err(e) ==> (e matches Error::MultipleErrors(es) && es@.len() > 0) || e is InvalidWireWidth
                || e is InternalParserErrorNear,
            r is Ok ==> forall|i: int|
                0 <= i < statement_bank_decls(statements@).len() ==> well_named(
                    #[trigger] statement_bank_decls(statements@)[i],
                ),
            r is Ok ==> forall|i: int, j: int|
                0 <= i < fixed_functions@.len() && fixed_functions@[i].mandatory && 0 <= j
                    < fixed_functions@[i].in_wires@.len() ==> exists|a: int|
                    0 <= a < statement_assignments(statements@).len() && #[trigger] assigns_name(
                        statement_assignments(statements@)[a],
                        (#[trigger] fixed_functions@[i].in_wires@[j]).name@,
                    ),
            r matches Ok(p) ==> forall|x: int|
                0 <= x < p.spec_actions().len() ==> action_origin(
                    #[trigger] p.spec_actions()[x],
                    statement_assignments(statements@),
                    fixed_functions@,
                ),
    {
        Program::build(statements, fixed_functions, false)
    }

    /// Checks a program, in steps: the constants; the declarations; the assignments,
    /// with the mux rules when `strict_muxes`; wires that are never set; the fixed
    /// functionality; the order of the work. When a step finds errors, they are
    /// returned together and the later steps are not taken.
    fn build(statements: Vec<Statement>, fixed_functions: Vec<FixedFunction>, strict_muxes: bool) -> (r: Result<
        Program,
        Error,
    >)
        ensures
            r is Ok ==> assigned_once(statement_assignments(statements@)),
            r is Ok ==> declared_wires_assigned(statement_wire_decls(statements@), statement_assignments(statements@)),
            r is Ok ==> forall|c: Seq<Seq<char>>|
                !(#[trigger] wire_loop(statement_assignments(statements@), Seq::empty(), Seq::empty(), c)),
            r matches Ok(p) ==> p.computes_assignments(statement_assignments(statements@)),
            r matches Ok(p) ==> computed_before_read(p.spec_actions()) && writes_last(p.spec_actions()) && produced_before_read(
                p.spec_actions(),
            ),
            r matches Ok(p) ==> constants_resolved(statement_const_decls(statements@), p.spec_constants()),
            r matches Ok(p) ==> banks_from_decls(p.spec_banks(), statement_bank_decls(statements@), p.spec_constants()),
            r matches Err(e) ==> (e matches Error::MultipleErrors(es) && es@.len() > 0) || e is InvalidWireWidth
                || e is InternalParserErrorNear,
            r is Ok ==> forall|i: int|
                0 <= i < statement_bank_decls(statements@).len() ==> well_named(
                    #[trigger] statement_bank_decls(statements@)[i],
                ),
            r is Ok ==> forall|i: int, j: int|
                0 <= i < fixed_functions@.len() && fixed_functions@[i].mandatory && 0 <= j
                    < fixed_functions@[i].in_wires@.len() ==> exists|a: int|
                    0 <= a < statement_assignments(statements@).len() && #[trigger] assigns_name(
                        statement_assignments(statements@)[a],
                        (#[trigger] fixed_functions@[i].in_wires@[j]).name@,
                    ),
            r matches Ok(p) ==> forall|x: int|
                0 <= x < p.spec_actions().len() ==> action_origin(
                    #[trigger] p.spec_actions()[x],
                    statement_assignments(statements@),
                    fixed_functions@,
                ),
    {
        let fixed = fixed_functions;
        let mut i: usize = 0;
        while i < fixed.len()
            invariant
                i <= fixed@.len(),
                forall|k: int| 0 <= k < i ==> (#[trigger] fixed@[k]).wf(),
            decreases fixed@.len() - i,
        {
            if !fixed[i].is_wf() {
                return Err(Error::InvalidWireWidth((0, 0)));
            }
            i = i + 1;
        }
        let (consts, wires, assigns, banks) = collect(statements);
        check_expressions(&consts, &assigns, &banks)?;
        let mut i: usize = 0;
        while i < wires.len()
            invariant
                i <= wires@.len(),
                forall|k: int| 0 <= k < i ==> (#[trigger] wires@[k]).width.valid(),
            decreases wires@.len() - i,
        {
            if !wires[i].width.valid_width() {
                return Err(Error::InvalidWireWidth(wires[i].span));
            }
            i = i + 1;
        }
        let mut errors: Vec<Error> = Vec::new();
        let names = declared_names(&wires, &banks, &fixed);
        let constants = match resolve_constants(&consts, &names, &mut errors) {
            Some(c) => c,
            None => {
                return Err(Error::MultipleErrors(errors));
            },
        };
        let declared = declare(&wires, &banks, &fixed, &constants, &consts, &mut errors);
        if errors.len() > 0 {
            return Err(Error::MultipleErrors(errors));
        }
        let (assigned, assignment_of) = check_assignments(
            &assigns,
            &declared,
            &constants,
            &consts,
            &fixed,
            strict_muxes,
            &mut errors,
        );
        if errors.len() > 0 {
            return Err(Error::MultipleErrors(errors));
        }
        let defaulted = check_unset(&declared, &assigned, &mut errors);
        if errors.len() > 0 {
            return Err(Error::MultipleErrors(errors));
        }
        let enabled = check_fixed(&fixed, &assigned, &assigns, &mut errors);
        if errors.len() > 0 {
            return Err(Error::MultipleErrors(errors));
        }
        let actions = match order_actions(&assigns, &assignment_of, &declared, &fixed, &enabled, &mut errors) {
            Some(a) => {
                proof {
                    assert forall|c: Seq<Seq<char>>|
                        !(#[trigger] wire_loop(assigns@, Seq::empty(), Seq::empty(), c)) by {
                        if wire_loop(assigns@, Seq::empty(), Seq::empty(), c) {
                            assert forall|i: int| 0 <= i < c.len() implies computed_from(
                                assigns@,
                                fixed@,
                                enabled@,
                                #[trigger] c[i],
                                c[(i + 1) % c.len() as int],
                            ) by {
                                assert(computed_from(assigns@, Seq::empty(), Seq::empty(), c[i], c[(i + 1) % c.len() as int]));
                            }
                            assert(wire_loop(assigns@, fixed@, enabled@, c));
                        }
                    }
                }
                a
            },
            None => {
                return Err(Error::MultipleErrors(errors));
            },
        };
        let mut fixed_inputs: Vec<String> = Vec::new();
        let mut fixed_outputs: Vec<String> = Vec::new();
        let mut i: usize = 0;
        while i < fixed.len()
            invariant
                i <= fixed@.len(),
                enabled@.len() == fixed@.len(),
            decreases fixed@.len() - i,
        {
            if enabled[i] {
                let mut j: usize = 0;
                while j < fixed[i].in_wires.len()
                    invariant
                        i < fixed@.len(),
                        j <= fixed@[i as int].in_wires@.len(),
                    decreases fixed@[i as int].in_wires@.len() - j,
                {
                    add_name(&mut fixed_inputs, fixed[i].in_wires[j].name.as_str());
                    j = j + 1;
                }
                match &fixed[i].out_wire {
                    Some(d) => add_name(&mut fixed_outputs, d.name.as_str()),
                    None => {},
                }
            }
            i = i + 1;
        }
        proof {
            assert forall|i: int| 0 <= i < wires@.len() implies exists|a: int|
                0 <= a < assigns@.len() && #[trigger] assigns_name(assigns@[a], (#[trigger] wires@[i]).name@) by {
                let k = wires@[i].name@;
                assert(declared.wire_spans@.dom().contains(k));
                assert(assigned@.dom().contains(k));
                assert(assignment_of@.dom().contains(k));
                let a = assignment_of@[k] as int;
                assert(assigns_name(assigns@[a], k));
            }
        }
        let Declared { widths, banks: register_banks, .. } = declared;
        Ok(Program { constants, actions, register_banks, defaulted, widths, fixed_inputs, fixed_outputs })
    }

    /// The values of the constants.
    pub fn constants(&self) -> (r: WireValues)
        ensures
            r@ == self.spec_constants()@,
            values_valid(r),
    {
        proof {
            use_type_invariant(self);
        }
        self.constants.duplicate()
    }

    pub closed spec fn spec_defaulted(self) -> Seq<Seq<char>> {
        names_of(self.defaulted@)
    }

    pub closed spec fn spec_fixed_inputs(self) -> Seq<String> {
        self.fixed_inputs@
    }

    pub closed spec fn spec_fixed_outputs(self) -> Seq<String> {
        self.fixed_outputs@
    }

    pub closed spec fn spec_widths(self) -> WireWidths {
        self.widths
    }

    /// The stall and bubble signals that no assignment sets; they stay false.
    pub fn defaulted_wires(&self) -> (r: Vec<String>)
        ensures
            names_of(r@) == self.spec_defaulted(),
    {
        copy_names(&self.defaulted)
    }

    /// The wires that the fixed functionality in use reads.
    pub fn fixed_inputs(&self) -> (r: &Vec<String>)
        ensures
            r@ == self.spec_fixed_inputs(),
    {
        &self.fixed_inputs
    }

    /// The wires that the fixed functionality in use sets.
    pub fn fixed_outputs(&self) -> (r: &Vec<String>)
        ensures
            r@ == self.spec_fixed_outputs(),
    {
        &self.fixed_outputs
    }

    /// The widths of the wires of the program.
    pub fn widths(&self) -> (r: &WireWidths)
        ensures
            *r == self.spec_widths(),
    {
        &self.widths
    }

    /// The actions of a cycle, in order: each wire is computed before it is read.
    pub fn actions(&self) -> (r: &Vec<Action>)
        ensures
            r@ == self.spec_actions(),
            forall|i: int| 0 <= i < r@.len() ==> (#[trigger] r@[i]).wf(),
            computed_before_read(r@),
    {
        proof {
            use_type_invariant(self);
        }
        &self.actions
    }

    pub fn register_banks(&self) -> (r: &Vec<RegisterBank>)
        ensures
            r@ == self.spec_banks(),
            forall|i: int| 0 <= i < r@.len() ==> (#[trigger] r@[i]).wf(),
    {
        proof {
            use_type_invariant(self);
        }
        &self.register_banks
    }

    /// The values of the wires before the first cycle: the constants, each register's
    /// input and output at its default, and each stall and bubble signal false.
    pub fn initial_state(&self) -> (r: WireValues)
        ensures
            values_valid(r),
            exists|states: Seq<WireValues>|
                #[trigger] initial_trace(states, self.spec_banks()) && states[0]@ == self.spec_constants()@
                    && states[0].keys() == self.spec_constants().keys() && states.last() == r,
    {
        proof {
            use_type_invariant(self);
        }
        let mut values = self.constants.duplicate();
        let ghost banks = self.register_banks@;
        let ghost first = values;
        let ghost mut states: Seq<WireValues> = seq![values];
        let mut i: usize = 0;
        while i < self.register_banks.len()
            invariant
                i <= self.register_banks@.len(),
                states[0] == first,
                banks == self.register_banks@,
                forall|k: int| 0 <= k < self.register_banks@.len() ==> (#[trigger] self.register_banks@[k]).wf(),
                values_valid(values),
                states.len() == i + 1,
                states.last() == values,
                forall|k: int| #![trigger banks[k]] 0 <= k < i ==> bank_initial(states[k], banks[k], states[k + 1]),
            decreases self.register_banks@.len() - i,
        {
            let bank = &self.register_banks[i];
            assert(self.register_banks@[i as int].wf());
            let ghost start = values;
            let ghost mut bstates: Seq<WireValues> = seq![values];
            let mut j: usize = 0;
            while j < bank.signals.len()
                invariant
                    j <= bank.signals@.len(),
                    bank.wf(),
                    values_valid(values),
                    bstates.len() == 2 * j + 1,
                    bstates[0] == start,
                    bstates.last() == values,
                    forall|k: int|
                        #![trigger bank.signals@[k]]
                        0 <= k < j ==> default_copied(bstates[2 * k], bstates[2 * k + 1], bstates[2 * k + 2], bank.signals@[k], bank.defaults),
                decreases bank.signals@.len() - j,
            {
                let in_name = &bank.signals[j].0;
                let out_name = &bank.signals[j].1;
                let ghost before = values;
                match bank.defaults.get(out_name.as_str()) {
                    Some(v) => {
                        values.insert(in_name.clone(), *v);
                        let ghost mid = values;
                        values.insert(out_name.clone(), *v);
                        proof {
                            bstates = bstates.push(mid).push(values);
                        }
                    },
                    None => {
                        proof {
                            bstates = bstates.push(values).push(values);
                        }
                    },
                }
                proof {
                    assert(default_copied(bstates[2 * j], bstates[2 * j + 1], bstates[2 * j + 2], bank.signals@[j as int], bank.defaults));
                }
                j = j + 1;
            }
            let ghost after_signals = values;
            values.insert(bank.bubble_signal.clone(), WireValue::false_value());
            let ghost after_bubble = values;
            values.insert(bank.stall_signal.clone(), WireValue::false_value());
            proof {
                let full = bstates.push(after_bubble).push(values);
                let n = bank.signals@.len();
                assert forall|k: int|
                    #![trigger bank.signals@[k]]
                    0 <= k < n implies default_copied(full[2 * k], full[2 * k + 1], full[2 * k + 2], bank.signals@[k], bank.defaults) by {
                    assert(full[2 * k] == bstates[2 * k]);
                    assert(full[2 * k + 1] == bstates[2 * k + 1]);
                    assert(full[2 * k + 2] == bstates[2 * k + 2]);
                }
                assert(bank_initial_trace(full, *bank));
                assert(bank_initial(start, banks[i as int], values));
                let next = states.push(values);
                assert forall|k: int| #![trigger banks[k]] 0 <= k < i + 1 implies bank_initial(next[k], banks[k], next[k + 1]) by {
                    if k < i {
                        assert(next[k] == states[k]);
                        assert(next[k + 1] == states[k + 1]);
                    }
                }
                states = next;
            }
            i = i + 1;
        }
        assert(initial_trace(states, self.spec_banks()));
        assert(states[0]@ == self.spec_constants()@);
        assert(states[0].keys() == self.spec_constants().keys());
        assert(states.last() == values);
        values
    }
}

} // verus!
