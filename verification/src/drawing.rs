//! Words for the operators of the language, for labels of drawings of a processor.
use vstd::prelude::*;
use crate::wires::str_eq;

verus! {

/// What a drawing of a processor is made from: the wire that gives the program
/// counter, its register, and the pipeline registers.
#[derive(Debug)]
pub struct Drawingtool {
    pc_output: String,
    pc_reg: String,
    pipeline_regs: Vec<String>,
}

impl Drawingtool {
    pub closed spec fn spec_pc_output(self) -> Seq<char> {
        self.pc_output@
    }

    pub closed spec fn spec_pc_reg(self) -> Seq<char> {
        self.pc_reg@
    }

    pub closed spec fn spec_pipeline_regs(self) -> Seq<String> {
        self.pipeline_regs@
    }

    pub fn new(pc_output: String, pc_reg: String) -> (r: Drawingtool)
        ensures
            r.spec_pc_output() == pc_output@,
            r.spec_pc_reg() == pc_reg@,
            r.spec_pipeline_regs().len() == 0,
    {
        Drawingtool { pc_output, pc_reg, pipeline_regs: Vec::new() }
    }

    pub fn set_pipeline_regs(&mut self, regs: Vec<String>)
        ensures
            final(self).spec_pipeline_regs() == regs@,
            final(self).spec_pc_output() == old(self).spec_pc_output(),
            final(self).spec_pc_reg() == old(self).spec_pc_reg(),
    {
        self.pipeline_regs = regs;
    }

    pub fn pipeline_regs(&self) -> (r: &Vec<String>)
        ensures
            r@ == self.spec_pipeline_regs(),
    {
        &self.pipeline_regs
    }

    /// The word for an operator that a label cannot hold.
    pub open spec fn certain_symbol_words(t: Seq<char>) -> Seq<char> {
        if t == "&"@ {
            "_and_"@
        } else if t == "&&"@ {
            "_andand_"@
        } else {
            "null"@
        }
    }

    /// A word for the operators that a label cannot hold: `_and_` for `&`, `_andand_`
    /// for `&&`, and `null` for any other text.
    pub fn certain_symbol_to_words(&self, sym: String) -> (r: String)
        ensures
            r@ == Self::certain_symbol_words(sym@),
    {
        if str_eq(sym.as_str(), "&") {
            String::from_str("_and_")
        } else if str_eq(sym.as_str(), "&&") {
            String::from_str("_andand_")
        } else {
            String::from_str("null")
        }
    }

    /// The name of a binary operator.
    pub open spec fn symbol_words(t: Seq<char>) -> Seq<char> {
        if t == "+"@ {
            "addition"@
        } else if t == "-"@ {
            "subtraction"@
        } else if t == "*"@ {
            "multiplication"@
        } else if t == "/"@ {
            "division"@
        } else if t == "|"@ {
            "bit or"@
        } else if t == "^"@ {
            "xor"@
        } else if t == "&"@ {
            "bit and"@
        } else if t == "="@ {
            "equals"@
        } else if t == "!="@ {
            "not equal"@
        } else if t == "<="@ {
            "less than or equal"@
        } else if t == ">="@ {
            "greater than or equak"@
        } else if t == "<"@ {
            "less than"@
        } else if t == ">"@ {
            "greater than"@
        } else if t == "&&"@ {
            "logical and"@
        } else if t == "||"@ {
            "logical or"@
        } else if t == ">>"@ {
            "right bit shift"@
        } else if t == "<<"@ {
            "left bit shift"@
        } else {
            "null"@
        }
    }

    /// The name of a binary operator, such as `addition` for `+`; `null` for a text
    /// that is no binary operator.
    pub fn symbol_to_words(&self, sym: String) -> (r: String)
        ensures
            r@ == Self::symbol_words(sym@),
    {
        let s = sym.as_str();
        let word = if str_eq(s, "+") {
            "addition"
        } else if str_eq(s, "-") {
            "subtraction"
        } else if str_eq(s, "*") {
            "multiplication"
        } else if str_eq(s, "/") {
            "division"
        } else if str_eq(s, "|") {
            "bit or"
        } else if str_eq(s, "^") {
            "xor"
        } else if str_eq(s, "&") {
            "bit and"
        } else if str_eq(s, "=") {
            "equals"
        } else if str_eq(s, "!=") {
            "not equal"
        } else if str_eq(s, "<=") {
            "less than or equal"
        } else if str_eq(s, ">=") {
            "greater than or equak"
        } else if str_eq(s, "<") {
            "less than"
        } else if str_eq(s, ">") {
            "greater than"
        } else if str_eq(s, "&&") {
            "logical and"
        } else if str_eq(s, "||") {
            "logical or"
        } else if str_eq(s, ">>") {
            "right bit shift"
        } else if str_eq(s, "<<") {
            "left bit shift"
        } else {
            "null"
        };
        String::from_str(word)
    }

    /// The name of a unary operator.
    pub open spec fn unary_words(t: Seq<char>) -> Seq<char> {
        if t == "+"@ {
            "plus"@
        } else if t == "-"@ {
            "negate"@
        } else if t == "~"@ {
            "Complement"@
        } else if t == "!"@ {
            "Not"@
        } else {
            "error"@
        }
    }

    /// The name of a unary operator, such as `negate` for `-`; `error` for a text
    /// that is no unary operator.
    pub fn un_op_to_string(&self, sym: String) -> (r: String)
        ensures
            r@ == Self::unary_words(sym@),
    {
        let s = sym.as_str();
        let word = if str_eq(s, "+") {
            "plus"
        } else if str_eq(s, "-") {
            "negate"
        } else if str_eq(s, "~") {
            "Complement"
        } else if str_eq(s, "!") {
            "Not"
        } else {
            "error"
        };
        String::from_str(word)
    }
}

} // verus!
