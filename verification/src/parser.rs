//! Reading expressions, declarations and statements from tokens.
//!
//! Precedence, loosest first: `||`, `&&`, the comparisons and `in` (which do not
//! chain), `|`, `^`, `&`, `<<` and `>>`, `+` and `-`, `*` and `/`, the unary
//! operators, and the bit selection `e[lo..hi]`. A concatenation `(a .. b)` must
//! stand in parentheses. A syntax error inside a statement is reported and the
//! statement is skipped up to its `;`; inside a register bank, up to the next `;`
//! or the closing `}`.
use vstd::prelude::*;
use crate::ast::{
    Assignment, BinOpCode, ConstDecl, Expr, MuxOption, RegisterBankDecl, RegisterDecl, SpannedExpr,
    Statement, UnOpCode, WireDecl, WireValue, WireWidth, items_well_formed, options_well_formed, two_128,
};
use crate::errors::Error;
use crate::refs::names_of;
use crate::lexer::{Lexer, Tok, fixed_text, tok_written_as, skipped, token_complete, lex_fault};

verus! {

/// A token with the positions where its text starts and ends.
pub type Token = (usize, Tok, usize);

const T_ANDAND: u8 = 0;
const T_OROR: u8 = 1;
const T_EQUAL: u8 = 2;
const T_NOT_EQUAL: u8 = 3;
const T_GREATER_EQUAL: u8 = 4;
const T_GREATER: u8 = 5;
const T_LESS_EQUAL: u8 = 6;
const T_LESS: u8 = 7;
const T_ASSIGN: u8 = 8;
const T_RIGHT_SHIFT: u8 = 9;
const T_LEFT_SHIFT: u8 = 10;
const T_COMMA: u8 = 11;
const T_SEMICOLON: u8 = 12;
const T_PLUS: u8 = 13;
const T_MINUS: u8 = 14;
const T_AND: u8 = 15;
const T_OR: u8 = 16;
const T_XOR: u8 = 17;
const T_TIMES: u8 = 18;
const T_DIVIDE: u8 = 19;
const T_NOT: u8 = 20;
const T_CONSTANT: u8 = 21;
const T_OPEN_PAREN: u8 = 22;
const T_CLOSE_PAREN: u8 = 23;
const T_OPEN_BRACE: u8 = 24;
const T_CLOSE_BRACE: u8 = 25;
const T_OPEN_BRACKET: u8 = 26;
const T_CLOSE_BRACKET: u8 = 27;
const T_COLON: u8 = 28;
const T_COMPLEMENT: u8 = 29;
const T_DOT_DOT: u8 = 30;
const T_WIRE: u8 = 31;
const T_CONST: u8 = 32;
const T_REGISTER: u8 = 33;
const T_IN: u8 = 34;
const T_IDENTIFIER: u8 = 35;
/// The tag read at the end of the tokens.
const T_END: u8 = 255;

/// Every constant among the tokens is a valid value.
pub open spec fn tokens_valid(ts: Seq<Token>) -> bool {
    forall|i: int| 0 <= i < ts.len() ==> ((#[trigger] ts[i]).1 matches Tok::Constant(v) ==> v.valid())
}

/// A statement whose expressions the evaluator and the width checker accept.
pub open spec fn statement_well_formed(st: Statement) -> bool {
    match st {
        Statement::ConstDecls(ds) => forall|i: int| 0 <= i < ds@.len() ==> (#[trigger] ds@[i]).value.well_formed(),
        Statement::WireDecls(_) => true,
        Statement::Assignments(xs) => forall|i: int|
            0 <= i < xs@.len() ==> (#[trigger] xs@[i]).value.well_formed(),
        Statement::RegisterBankDecl(b) => forall|i: int|
            0 <= i < b.registers@.len() ==> (#[trigger] b.registers@[i]).default.well_formed(),
        Statement::Error => true,
    }
}

pub open spec fn statements_well_formed(sts: Seq<Statement>) -> bool {
    forall|i: int| 0 <= i < sts.len() ==> statement_well_formed(#[trigger] sts[i])
}

/// A fact of a parse: tokens `a` up to `b` read at precedence level `n` give the
/// expression `e`. Levels, tightest first: 0 an operand (a constant, a wire, a
/// parenthesized expression or concatenation, or a mux), 1 bit selections, 2 unary
/// operators, 3 `*` and `/`, 4 `+` and `-`, 5 shifts, 6 `&`, 7 `^`, 8 `|`, 9 a
/// comparison or an `in` test, 10 `&&`, 11 `||`; 12 is a concatenation chain inside
/// parentheses.
pub type Fact = (int, int, nat, SpannedExpr);

/// The binary operator that a token stands for at a level of precedence.
pub open spec fn spec_binop_at(level: nat, t: Tok) -> Option<BinOpCode> {
    match t {
        Tok::OrOr => if level == 11 { Some(BinOpCode::LogicalOr) } else { None },
        Tok::AndAnd => if level == 10 { Some(BinOpCode::LogicalAnd) } else { None },
        Tok::Or => if level == 8 { Some(BinOpCode::Or) } else { None },
        Tok::Xor => if level == 7 { Some(BinOpCode::Xor) } else { None },
        Tok::And => if level == 6 { Some(BinOpCode::And) } else { None },
        Tok::LeftShift => if level == 5 { Some(BinOpCode::LeftShift) } else { None },
        Tok::RightShift => if level == 5 { Some(BinOpCode::RightShift) } else { None },
        Tok::Plus => if level == 4 { Some(BinOpCode::Add) } else { None },
        Tok::Minus => if level == 4 { Some(BinOpCode::Sub) } else { None },
        Tok::Times => if level == 3 { Some(BinOpCode::Mul) } else { None },
        Tok::Divide => if level == 3 { Some(BinOpCode::Div) } else { None },
        _ => None,
    }
}

/// The comparison that a token stands for.
pub open spec fn spec_comparison_at(t: Tok) -> Option<BinOpCode> {
    match t {
        Tok::Equal => Some(BinOpCode::Equal),
        Tok::NotEqual => Some(BinOpCode::NotEqual),
        Tok::LessEqual => Some(BinOpCode::LessEqual),
        Tok::GreaterEqual => Some(BinOpCode::GreaterEqual),
        Tok::Less => Some(BinOpCode::Less),
        Tok::Greater => Some(BinOpCode::Greater),
        _ => None,
    }
}

/// The unary operator that a token stands for.
pub open spec fn spec_unop_at(t: Tok) -> Option<UnOpCode> {
    match t {
        Tok::Not => Some(UnOpCode::Not),
        Tok::Minus => Some(UnOpCode::Negate),
        Tok::Complement => Some(UnOpCode::Complement),
        Tok::Plus => Some(UnOpCode::Plus),
        _ => None,
    }
}

/// The span from the start of token `a` to the end of token `b`.
pub open spec fn token_span(ts: Seq<Token>, a: int, b: int) -> (usize, usize) {
    (ts[a].0, ts[b].2)
}

/// Tokens `a` up to `b` are a mux option `condition : value`.
pub open spec fn option_fact(ts: Seq<Token>, facts: Set<Fact>, a: int, b: int, o: MuxOption) -> bool {
    exists|m: int|
        a < m < b && ts[m].1 is Colon && #[trigger] facts.contains((a, m, 11nat, o.condition)) && facts.contains(
            (m + 1, b, 11nat, o.value),
        )
}

/// Tokens `a` up to `b` are the options, each followed by `;`.
pub open spec fn terminated_options(ts: Seq<Token>, facts: Set<Fact>, a: int, b: int, opts: Seq<MuxOption>) -> bool
    decreases opts.len(),
{
    if opts.len() == 0 {
        a == b
    } else {
        exists|k: int|
            a <= k < b - 1 && terminated_options(ts, facts, a, k, opts.drop_last()) && #[trigger] option_fact(
                ts,
                facts,
                k,
                b - 1,
                opts.last(),
            ) && ts[b - 1].1 is Semicolon
    }
}

/// Tokens `a` up to `b`, inside the brackets of a mux, are its options: each but the
/// last followed by `;`, the last optionally.
pub open spec fn mux_body(ts: Seq<Token>, facts: Set<Fact>, a: int, b: int, opts: Seq<MuxOption>) -> bool {
    &&& opts.len() >= 1
    &&& exists|k: int|
        a <= k < b && #[trigger] terminated_options(ts, facts, a, k, opts.drop_last()) && (option_fact(
            ts,
            facts,
            k,
            b,
            opts.last(),
        ) || (ts[b - 1].1 is Semicolon && option_fact(ts, facts, k, b - 1, opts.last())))
}

/// Tokens `a` up to `b` are the items of a set, separated by commas.
pub open spec fn set_items(ts: Seq<Token>, facts: Set<Fact>, a: int, b: int, items: Seq<SpannedExpr>) -> bool
    decreases items.len(),
{
    if items.len() == 0 {
        false
    } else if items.len() == 1 {
        facts.contains((a, b, 11nat, items[0]))
    } else {
        exists|k: int|
            a < k < b && ts[k].1 is Comma && set_items(ts, facts, a, k, items.drop_last())
                && #[trigger] facts.contains((k + 1, b, 11nat, items.last()))
    }
}

/// The number of a constant token.
pub open spec fn constant_bits(t: Tok) -> Option<u128> {
    match t {
        Tok::Constant(c) => Some(c.bits),
        _ => None,
    }
}

/// The level of a binary operator token, or 0 for another token.
pub open spec fn binop_level(t: Tok) -> nat {
    match t {
        Tok::OrOr => 11,
        Tok::AndAnd => 10,
        Tok::Or => 8,
        Tok::Xor => 7,
        Tok::And => 6,
        Tok::LeftShift | Tok::RightShift => 5,
        Tok::Plus | Tok::Minus => 4,
        Tok::Times | Tok::Divide => 3,
        _ => 0,
    }
}

/// A token that continues an expression of the level after an operand: a bit
/// selection from level 1 on, a binary operator of a level up to it, and a
/// comparison or `in` from level 9 on.
pub open spec fn continues_at(level: nat, t: Tok) -> bool {
    ||| (level >= 1 && t is OpenBracket)
    ||| (3 <= binop_level(t) <= level)
    ||| (level >= 9 && (spec_comparison_at(t) is Some || t is In))
}

/// The token at `a` is a constant or a wire name, and what follows cannot continue
/// an expression of the level.
pub open spec fn lone_operand(ts: Seq<Token>, a: int, level: nat) -> bool {
    &&& 0 <= a < ts.len()
    &&& (ts[a].1 is Constant || ts[a].1 is Identifier)
    &&& (a + 1 == ts.len() || !continues_at(level, ts[a + 1].1))
}

/// The expression is the constant or wire of the token at `a`, with its span.
pub open spec fn operand_of(ts: Seq<Token>, a: int, e: SpannedExpr) -> bool {
    &&& e.span == (ts[a].0, ts[a].2)
    &&& match ts[a].1 {
        Tok::Constant(v) => *e.expr == Expr::Constant(v),
        Tok::Identifier(n) => *e.expr == Expr::NamedWire(n),
        _ => false,
    }
}

/// A constant that can be a bit index: at most 255.
pub open spec fn bit_index_token(t: Tok) -> bool {
    match t {
        Tok::Constant(c) => c.bits <= 255,
        _ => false,
    }
}

/// An operand: a constant, a wire, an expression or a concatenation in parentheses, or
/// a mux in brackets.
pub open spec fn operand_rule(ts: Seq<Token>, facts: Set<Fact>, a: int, b: int, e: SpannedExpr) -> bool {
    ||| (b >= a + 3 && ts[a].1 is OpenParen && ts[b - 1].1 is CloseParen && facts.contains((a + 1, b - 1, 11nat, e)))
    ||| match *e.expr {
        Expr::Constant(v) => b == a + 1 && ts[a].1 == Tok::Constant(v) && e.span == token_span(ts, a, a),
        Expr::NamedWire(name) => b == a + 1 && ts[a].1 == Tok::Identifier(name) && e.span == token_span(ts, a, a),
        Expr::Concat(l, r) => {
            &&& b >= a + 3
            &&& ts[a].1 is OpenParen
            &&& ts[b - 1].1 is CloseParen
            &&& e.span == token_span(ts, a, b - 1)
            &&& facts.contains((a + 1, b - 1, 12nat, SpannedExpr { expr: e.expr, span: (l.span.0, r.span.1) }))
        },
        Expr::Mux(options) => {
            &&& b >= a + 2
            &&& ts[a].1 is OpenBracket
            &&& ts[b - 1].1 is CloseBracket
            &&& e.span == token_span(ts, a, b - 1)
            &&& mux_body(ts, facts, a + 1, b - 1, options@)
        },
        _ => false,
    }
}

/// A bit selection `e[lo..hi]`.
pub open spec fn bit_select_rule(ts: Seq<Token>, facts: Set<Fact>, a: int, b: int, e: SpannedExpr) -> bool {
    match *e.expr {
        Expr::BitSelect { from, low, high } => {
            &&& b >= a + 6
            &&& facts.contains((a, b - 5, 1nat, from))
            &&& ts[b - 5].1 is OpenBracket
            &&& constant_bits(ts[b - 4].1) == Some(low as u128)
            &&& ts[b - 3].1 is DotDot
            &&& constant_bits(ts[b - 2].1) == Some(high as u128)
            &&& ts[b - 1].1 is CloseBracket
            &&& e.span == (from.span.0, ts[b - 1].2)
        },
        _ => false,
    }
}

/// A unary operator before an expression of the same level.
pub open spec fn unary_rule(ts: Seq<Token>, facts: Set<Fact>, a: int, b: int, e: SpannedExpr) -> bool {
    match *e.expr {
        Expr::UnOp(op, inner) => spec_unop_at(ts[a].1) == Some(op) && facts.contains((a + 1, b, 2nat, inner)) && e.span
            == (ts[a].0, inner.span.1),
        _ => false,
    }
}

/// A comparison of two expressions of level 8, or an `in` test.
pub open spec fn comparison_rule(ts: Seq<Token>, facts: Set<Fact>, a: int, b: int, e: SpannedExpr) -> bool {
    match *e.expr {
        Expr::BinOp(op, l, r) => exists|k: int|
            {
                &&& a < k < b
                &&& spec_comparison_at(ts[k].1) == Some(op)
                &&& #[trigger] facts.contains((a, k, 8nat, l))
                &&& facts.contains((k + 1, b, 8nat, r))
                &&& e.span == (l.span.0, r.span.1)
            },
        Expr::InSet(l, items) => exists|k: int|
            {
                &&& a < k < b - 2
                &&& ts[k].1 is In
                &&& ts[k + 1].1 is OpenBrace
                &&& ts[b - 1].1 is CloseBrace
                &&& #[trigger] facts.contains((a, k, 8nat, l))
                &&& set_items(ts, facts, k + 2, b - 1, items@)
                &&& e.span == (l.span.0, ts[b - 1].2)
            },
        _ => false,
    }
}

/// A chain of concatenations, grouped to the left.
pub open spec fn concat_rule(ts: Seq<Token>, facts: Set<Fact>, a: int, b: int, e: SpannedExpr) -> bool {
    match *e.expr {
        Expr::Concat(l, r) => exists|k: int|
            {
                &&& a < k < b
                &&& ts[k].1 is DotDot
                &&& #[trigger] facts.contains((a, k, 12nat, l))
                &&& facts.contains((k + 1, b, 11nat, r))
                &&& e.span == (l.span.0, r.span.1)
            },
        _ => false,
    }
}

/// A binary operator of level `n`, grouped to the left.
pub open spec fn binary_rule(ts: Seq<Token>, facts: Set<Fact>, a: int, b: int, n: nat, e: SpannedExpr) -> bool {
    match *e.expr {
        Expr::BinOp(op, l, r) => exists|k: int|
            {
                &&& a < k < b
                &&& spec_binop_at(n, ts[k].1) == Some(op)
                &&& #[trigger] facts.contains((a, k, n, l))
                &&& facts.contains((k + 1, b, (n - 1) as nat, r))
                &&& e.span == (l.span.0, r.span.1)
            },
        _ => false,
    }
}

/// A fact follows from the tokens and from other facts: the grammar of expressions.
pub open spec fn justified(ts: Seq<Token>, facts: Set<Fact>, f: Fact) -> bool {
    let (a, b, n, e) = f;
    &&& 0 <= a < b <= ts.len()
    &&& if n == 0 {
        operand_rule(ts, facts, a, b, e)
    } else if n == 1 {
        facts.contains((a, b, 0nat, e)) || bit_select_rule(ts, facts, a, b, e)
    } else if n == 2 {
        facts.contains((a, b, 1nat, e)) || unary_rule(ts, facts, a, b, e)
    } else if n == 9 {
        facts.contains((a, b, 8nat, e)) || comparison_rule(ts, facts, a, b, e)
    } else if n == 12 {
        facts.contains((a, b, 11nat, e)) || concat_rule(ts, facts, a, b, e)
    } else if n <= 11 {
        facts.contains((a, b, (n - 1) as nat, e)) || binary_rule(ts, facts, a, b, n, e)
    } else {
        false
    }
}

/// Every one of the facts follows from the tokens and the others.
#[verifier::opaque]
pub open spec fn derivable(ts: Seq<Token>, facts: Set<Fact>) -> bool {
    forall|f: Fact| #[trigger] facts.contains(f) ==> justified(ts, facts, f)
}

/// Tokens `a` up to `b` read at level `n` give the expression `e`.
pub open spec fn derives(ts: Seq<Token>, a: int, b: int, n: nat, e: SpannedExpr) -> bool {
    exists|facts: Set<Fact>| #[trigger] derivable(ts, facts) && facts.contains((a, b, n, e))
}

proof fn lemma_terminated_mono(ts: Seq<Token>, f: Set<Fact>, g: Set<Fact>, a: int, b: int, opts: Seq<MuxOption>)
    requires
        f.subset_of(g),
        terminated_options(ts, f, a, b, opts),
    ensures
        terminated_options(ts, g, a, b, opts),
    decreases opts.len(),
{
    if opts.len() > 0 {
        let k = choose|k: int|
            a <= k < b - 1 && terminated_options(ts, f, a, k, opts.drop_last()) && #[trigger] option_fact(
                ts,
                f,
                k,
                b - 1,
                opts.last(),
            ) && ts[b - 1].1 is Semicolon;
        lemma_terminated_mono(ts, f, g, a, k, opts.drop_last());
        let m = choose|m: int|
            k < m < b - 1 && ts[m].1 is Colon && #[trigger] f.contains((k, m, 11nat, opts.last().condition))
                && f.contains((m + 1, b - 1, 11nat, opts.last().value));
        assert(g.contains((k, m, 11nat, opts.last().condition)));
        assert(option_fact(ts, g, k, b - 1, opts.last()));
    }
}

proof fn lemma_set_items_mono(ts: Seq<Token>, f: Set<Fact>, g: Set<Fact>, a: int, b: int, items: Seq<SpannedExpr>)
    requires
        f.subset_of(g),
        set_items(ts, f, a, b, items),
    ensures
        set_items(ts, g, a, b, items),
    decreases items.len(),
{
    if items.len() > 1 {
        let k = choose|k: int|
            a < k < b && ts[k].1 is Comma && set_items(ts, f, a, k, items.drop_last())
                && #[trigger] f.contains((k + 1, b, 11nat, items.last()));
        lemma_set_items_mono(ts, f, g, a, k, items.drop_last());
    }
}

/// A fact that follows from some facts follows from more.
proof fn lemma_justified_mono(ts: Seq<Token>, f: Set<Fact>, g: Set<Fact>, x: Fact)
    requires
        f.subset_of(g),
        justified(ts, f, x),
    ensures
        justified(ts, g, x),
{
    let (a, b, n, e) = x;
    if n == 0 {
        if let Expr::Mux(options) = *e.expr {
            if b >= a + 2 && ts[a].1 is OpenBracket && ts[b - 1].1 is CloseBracket && e.span == token_span(ts, a, b - 1)
                && mux_body(ts, f, a + 1, b - 1, options@) {
                let opts = options@;
                let k = choose|k: int|
                    a + 1 <= k < b - 1 && #[trigger] terminated_options(ts, f, a + 1, k, opts.drop_last()) && (option_fact(
                        ts,
                        f,
                        k,
                        b - 1,
                        opts.last(),
                    ) || (ts[b - 2].1 is Semicolon && option_fact(ts, f, k, b - 2, opts.last())));
                lemma_terminated_mono(ts, f, g, a + 1, k, opts.drop_last());
                if option_fact(ts, f, k, b - 1, opts.last()) {
                    let m = choose|m: int|
                        k < m < b - 1 && ts[m].1 is Colon && #[trigger] f.contains((k, m, 11nat, opts.last().condition))
                            && f.contains((m + 1, b - 1, 11nat, opts.last().value));
                    assert(g.contains((k, m, 11nat, opts.last().condition)));
                } else {
                    let m = choose|m: int|
                        k < m < b - 2 && ts[m].1 is Colon && #[trigger] f.contains((k, m, 11nat, opts.last().condition))
                            && f.contains((m + 1, b - 2, 11nat, opts.last().value));
                    assert(g.contains((k, m, 11nat, opts.last().condition)));
                }
                assert(terminated_options(ts, g, a + 1, k, opts.drop_last()));
            }
        }
    } else if n == 9 {
        if let Expr::InSet(l, items) = *e.expr {
            if comparison_rule(ts, f, a, b, e) {
                let k = choose|k: int|
                    {
                        &&& a < k < b - 2
                        &&& ts[k].1 is In
                        &&& ts[k + 1].1 is OpenBrace
                        &&& ts[b - 1].1 is CloseBrace
                        &&& #[trigger] f.contains((a, k, 8nat, l))
                        &&& set_items(ts, f, k + 2, b - 1, items@)
                        &&& e.span == (l.span.0, ts[b - 1].2)
                    };
                lemma_set_items_mono(ts, f, g, k + 2, b - 1, items@);
                assert(g.contains((a, k, 8nat, l)));
            }
        } else if let Expr::BinOp(op, l, r) = *e.expr {
            if comparison_rule(ts, f, a, b, e) {
                let k = choose|k: int|
                    {
                        &&& a < k < b
                        &&& spec_comparison_at(ts[k].1) == Some(op)
                        &&& #[trigger] f.contains((a, k, 8nat, l))
                        &&& f.contains((k + 1, b, 8nat, r))
                        &&& e.span == (l.span.0, r.span.1)
                    };
                assert(g.contains((a, k, 8nat, l)));
            }
        }
    } else if n == 12 {
        if let Expr::Concat(l, r) = *e.expr {
            if concat_rule(ts, f, a, b, e) {
                let k = choose|k: int|
                    {
                        &&& a < k < b
                        &&& ts[k].1 is DotDot
                        &&& #[trigger] f.contains((a, k, 12nat, l))
                        &&& f.contains((k + 1, b, 11nat, r))
                        &&& e.span == (l.span.0, r.span.1)
                    };
                assert(g.contains((a, k, 12nat, l)));
            }
        }
    } else if n <= 11 && n != 1 && n != 2 {
        if let Expr::BinOp(op, l, r) = *e.expr {
            if binary_rule(ts, f, a, b, n, e) {
                let k = choose|k: int|
                    {
                        &&& a < k < b
                        &&& spec_binop_at(n, ts[k].1) == Some(op)
                        &&& #[trigger] f.contains((a, k, n, l))
                        &&& f.contains((k + 1, b, (n - 1) as nat, r))
                        &&& e.span == (l.span.0, r.span.1)
                    };
                assert(g.contains((a, k, n, l)));
            }
        }
    }
}

/// A fact that follows from the tokens and the others can join them.
proof fn lemma_add_fact(ts: Seq<Token>, facts: Set<Fact>, f: Fact)
    requires
        derivable(ts, facts),
        justified(ts, facts, f),
    ensures
        derivable(ts, facts.insert(f)),
{
    reveal(derivable);
    assert forall|x: Fact| #[trigger] facts.insert(f).contains(x) implies justified(ts, facts.insert(f), x) by {
        lemma_justified_mono(ts, facts, facts.insert(f), x);
    }
}

/// One more item of a set, after the first or after a comma.
proof fn lemma_set_items_step(
    ts: Seq<Token>,
    before: Set<Fact>,
    after: Set<Fact>,
    first: int,
    q: int,
    t: int,
    items: Seq<SpannedExpr>,
    item: SpannedExpr,
)
    requires
        before.subset_of(after),
        items.len() == 0 ==> q == first,
        items.len() > 0 ==> first < q - 1 && ts[q - 1].1 is Comma && set_items(ts, before, first, q - 1, items),
        q < t,
        after.contains((q, t, 11nat, item)),
    ensures
        set_items(ts, after, first, t, items.push(item)),
{
    let all = items.push(item);
    assert(all.drop_last() =~= items);
    assert(all.last() == item);
    if items.len() > 0 {
        lemma_set_items_mono(ts, before, after, first, q - 1, items);
        assert(set_items(ts, after, first, q - 1, all.drop_last()));
        assert(after.contains(((q - 1) + 1, t, 11nat, all.last())));
    } else {
        assert(all[0] == item);
    }
}

/// One more option of a mux, which ends the options or is followed by `;`.
proof fn lemma_option_step(
    ts: Seq<Token>,
    before: Set<Fact>,
    after: Set<Fact>,
    lo: int,
    q: int,
    m: int,
    t: int,
    opts: Seq<MuxOption>,
    o: MuxOption,
)
    requires
        before.subset_of(after),
        lo <= q < m,
        m + 1 < t,
        ts[m].1 is Colon,
        terminated_options(ts, before, lo, q, opts),
        after.contains((q, m, 11nat, o.condition)),
        after.contains((m + 1, t, 11nat, o.value)),
    ensures
        ts[t].1 is Semicolon ==> terminated_options(ts, after, lo, t + 1, opts.push(o)),
        mux_body(ts, after, lo, t, opts.push(o)),
        ts[t].1 is Semicolon ==> mux_body(ts, after, lo, t + 1, opts.push(o)),
{
    let all = opts.push(o);
    assert(all.drop_last() =~= opts);
    assert(all.last() == o);
    lemma_terminated_mono(ts, before, after, lo, q, opts);
    assert(terminated_options(ts, after, lo, q, all.drop_last()));
    assert(option_fact(ts, after, q, t, all.last()));
    assert(option_fact(ts, after, q, (t + 1) - 1, all.last()));
}

/// The expression was read, as a whole expression, from some of the tokens.
pub open spec fn read_in(facts: Set<Fact>, e: SpannedExpr) -> bool {
    exists|a: int, b: int| #[trigger] facts.contains((a, b, 11nat, e))
}

/// Each expression of the statement was read, as a whole expression, from some of
/// the tokens.
pub open spec fn statement_read_in(facts: Set<Fact>, st: Statement) -> bool {
    match st {
        Statement::ConstDecls(ds) => forall|i: int| 0 <= i < ds@.len() ==> read_in(facts, (#[trigger] ds@[i]).value),
        Statement::Assignments(xs) => forall|i: int| 0 <= i < xs@.len() ==> read_in(facts, (#[trigger] xs@[i]).value),
        Statement::RegisterBankDecl(b) => forall|i: int|
            0 <= i < b.registers@.len() ==> read_in(facts, (#[trigger] b.registers@[i]).default),
        _ => true,
    }
}

/// The value of each declaration derives, as a whole expression, from some of the
/// tokens by the grammar of expressions.
pub open spec fn const_values_read_from(ts: Seq<Token>, ds: Seq<ConstDecl>) -> bool {
    exists|facts: Set<Fact>|
        #[trigger] derivable(ts, facts) && forall|i: int| 0 <= i < ds.len() ==> read_in(facts, (#[trigger] ds[i]).value)
}

/// Each expression of the statements derives, as a whole expression, from some of the
/// tokens by the grammar of expressions.
pub open spec fn statements_read_from(ts: Seq<Token>, sts: Seq<Statement>) -> bool {
    exists|facts: Set<Fact>|
        #[trigger] derivable(ts, facts) && forall|i: int| 0 <= i < sts.len() ==> statement_read_in(facts, #[trigger] sts[i])
}

proof fn lemma_read_in_mono(f: Set<Fact>, g: Set<Fact>, e: SpannedExpr)
    requires
        f.subset_of(g),
        read_in(f, e),
    ensures
        read_in(g, e),
{
    let (a, b) = choose|a: int, b: int| #[trigger] f.contains((a, b, 11nat, e));
    assert(g.contains((a, b, 11nat, e)));
}

proof fn lemma_statement_read_in_mono(f: Set<Fact>, g: Set<Fact>, st: Statement)
    requires
        f.subset_of(g),
        statement_read_in(f, st),
    ensures
        statement_read_in(g, st),
{
    match st {
        Statement::ConstDecls(ds) => {
            assert forall|i: int| 0 <= i < ds@.len() implies read_in(g, (#[trigger] ds@[i]).value) by {
                lemma_read_in_mono(f, g, ds@[i].value);
            }
        },
        Statement::Assignments(xs) => {
            assert forall|i: int| 0 <= i < xs@.len() implies read_in(g, (#[trigger] xs@[i]).value) by {
                lemma_read_in_mono(f, g, xs@[i].value);
            }
        },
        Statement::RegisterBankDecl(b) => {
            assert forall|i: int| 0 <= i < b.registers@.len() implies read_in(g, (#[trigger] b.registers@[i]).default) by {
                lemma_read_in_mono(f, g, b.registers@[i].default);
            }
        },
        _ => {},
    }
}

/// Where the text before the token at `i` starts: at `start` for the first token, and
/// after the token before it for the others (for `i` the number of tokens, where the
/// text after the last token starts).
pub open spec fn gap_start(start: int, ts: Seq<Token>, i: int) -> int {
    if i == 0 {
        start
    } else {
        ts[i - 1].2 as int
    }
}

/// The tokens were read in order from the text that follows `start`: each from the text
/// it is written with, as long as a token of its kind can be there, and only white
/// space and comments before it.
pub open spec fn lexed_between(text: Seq<char>, start: int, ts: Seq<Token>) -> bool {
    &&& forall|i: int|
        0 <= i < ts.len() ==> (#[trigger] ts[i]).0 < ts[i].2 <= text.len() && tok_written_as(
            ts[i].1,
            text.subrange(ts[i].0 as int, ts[i].2 as int),
        )
    &&& forall|i: int, j: int| 0 <= i < j < ts.len() ==> (#[trigger] ts[i]).2 <= (#[trigger] ts[j]).0
    &&& forall|i: int|
        0 <= i < ts.len() ==> skipped(text, gap_start(start, ts, i), (#[trigger] ts[i]).0 as int)
            && token_complete(text, ts[i].0 as int, ts[i].2 as int, ts[i].1)
}

/// The tokens were read in order from the start of the text (see `lexed_between`), and
/// after the last one comes only white space and comments: the whole text was read.
pub open spec fn lexed_from(text: Seq<char>, ts: Seq<Token>) -> bool {
    &&& lexed_between(text, 0, ts)
    &&& skipped(text, gap_start(0, ts, ts.len() as int), text.len() as int)
}

proof fn lemma_options_all(options: Seq<MuxOption>, i: int)
    requires
        0 <= i <= options.len(),
        forall|j: int|
            #![trigger options[j]]
            i <= j < options.len() ==> options[j].condition.well_formed() && options[j].value.well_formed(),
    ensures
        options_well_formed(options, i),
    decreases options.len() - i,
{
    if i < options.len() {
        lemma_options_all(options, i + 1);
    }
}

proof fn lemma_items_all(items: Seq<SpannedExpr>, i: int)
    requires
        0 <= i <= items.len(),
        forall|j: int| #![trigger items[j]] i <= j < items.len() ==> items[j].well_formed(),
    ensures
        items_well_formed(items, i),
    decreases items.len() - i,
{
    if i < items.len() {
        lemma_items_all(items, i + 1);
    }
}

/// The tokens of a text up to its end or its first lexical error, and that error. After
/// the last token comes only white space and comments, up to the end of the text or up
/// to the error.
#[verifier::rlimit(50)]
#[verifier::spinoff_prover]
pub fn tokenize(lexer: &mut Lexer) -> (r: (Vec<Token>, Option<Error>))
    requires
        old(lexer).wf(),
        old(lexer).position() <= old(lexer).text().len(),
    ensures
        tokens_valid(r.0@),
        lexed_between(old(lexer).text(), old(lexer).position() as int, r.0@),
        final(lexer).text() == old(lexer).text(),
        r.1 is None ==> final(lexer).position() == final(lexer).text().len(),
        forall|i: int| 0 <= i < r.0@.len() ==> old(lexer).position() <= (#[trigger] r.0@[i]).0,
        r.1 is None ==> skipped(
            old(lexer).text(),
            gap_start(old(lexer).position() as int, r.0@, r.0@.len() as int),
            old(lexer).text().len() as int,
        ),
        r.1 matches Some(err) ==> exists|s: int|
            #![trigger lex_fault(old(lexer).text(), s, err)]
            skipped(old(lexer).text(), gap_start(old(lexer).position() as int, r.0@, r.0@.len() as int), s)
                && lex_fault(old(lexer).text(), s, err),
{
    let mut tokens: Vec<Token> = Vec::new();
    loop
        invariant
            lexer.wf(),
            lexer.text() == old(lexer).text(),
            old(lexer).position() <= lexer.position() <= lexer.text().len(),
            tokens_valid(tokens@),
            lexed_between(lexer.text(), old(lexer).position() as int, tokens@),
            forall|i: int| 0 <= i < tokens@.len() ==> (#[trigger] tokens@[i]).2 <= lexer.position(),
            forall|i: int| 0 <= i < tokens@.len() ==> old(lexer).position() <= (#[trigger] tokens@[i]).0,
            gap_start(old(lexer).position() as int, tokens@, tokens@.len() as int) == lexer.position(),
        decreases lexer.text().len() - lexer.position(),
    {
        match lexer.next() {
            None => {
                return (tokens, None);
            },
            Some(Err(e)) => {
                return (tokens, Some(e));
            },
            Some(Ok(t)) => {
                let ghost before = tokens@;
                tokens.push(t);
                proof {
                    assert forall|i: int| 0 <= i < tokens@.len() implies skipped(
                        lexer.text(),
                        gap_start(old(lexer).position() as int, tokens@, i),
                        (#[trigger] tokens@[i]).0 as int,
                    ) by {
                        if i < before.len() {
                            assert(tokens@[i] == before[i]);
                            if i > 0 {
                                assert(tokens@[i - 1] == before[i - 1]);
                            }
                        }
                    }
                }
            },
        }
    }
}

/// The binary operator that a token stands for at a level of precedence.
fn binop_at(level: u8, tag: u8) -> (r: Option<BinOpCode>)
    ensures
        r matches Some(op) ==> op != BinOpCode::Error,
        r is Some ==> tag != T_END,
        forall|t: Tok| #[trigger] t.spec_tag() == tag ==> r == spec_binop_at(level as nat, t),
{
    if level == 11 && tag == T_OROR {
        Some(BinOpCode::LogicalOr)
    } else if level == 10 && tag == T_ANDAND {
        Some(BinOpCode::LogicalAnd)
    } else if level == 8 && tag == T_OR {
        Some(BinOpCode::Or)
    } else if level == 7 && tag == T_XOR {
        Some(BinOpCode::Xor)
    } else if level == 6 && tag == T_AND {
        Some(BinOpCode::And)
    } else if level == 5 && tag == T_LEFT_SHIFT {
        Some(BinOpCode::LeftShift)
    } else if level == 5 && tag == T_RIGHT_SHIFT {
        Some(BinOpCode::RightShift)
    } else if level == 4 && tag == T_PLUS {
        Some(BinOpCode::Add)
    } else if level == 4 && tag == T_MINUS {
        Some(BinOpCode::Sub)
    } else if level == 3 && tag == T_TIMES {
        Some(BinOpCode::Mul)
    } else if level == 3 && tag == T_DIVIDE {
        Some(BinOpCode::Div)
    } else {
        None
    }
}

/// The comparison that a token stands for.
fn comparison_at(tag: u8) -> (r: Option<BinOpCode>)
    ensures
        r matches Some(op) ==> op != BinOpCode::Error,
        r is Some ==> tag != T_END,
        forall|t: Tok| #[trigger] t.spec_tag() == tag ==> r == spec_comparison_at(t),
{
    if tag == T_EQUAL {
        Some(BinOpCode::Equal)
    } else if tag == T_NOT_EQUAL {
        Some(BinOpCode::NotEqual)
    } else if tag == T_LESS_EQUAL {
        Some(BinOpCode::LessEqual)
    } else if tag == T_GREATER_EQUAL {
        Some(BinOpCode::GreaterEqual)
    } else if tag == T_LESS {
        Some(BinOpCode::Less)
    } else if tag == T_GREATER {
        Some(BinOpCode::Greater)
    } else {
        None
    }
}

/// The unary operator that a token stands for.
fn unop_at(tag: u8) -> (r: Option<UnOpCode>)
    ensures
        r is Some ==> tag != T_END,
        forall|t: Tok| #[trigger] t.spec_tag() == tag ==> r == spec_unop_at(t),
{
    if tag == T_NOT {
        Some(UnOpCode::Not)
    } else if tag == T_MINUS {
        Some(UnOpCode::Negate)
    } else if tag == T_COMPLEMENT {
        Some(UnOpCode::Complement)
    } else if tag == T_PLUS {
        Some(UnOpCode::Plus)
    } else {
        None
    }
}

/// The texts of string slices.
pub open spec fn texts_of(names: Seq<&str>) -> Seq<Seq<char>> {
    names.map_values(|t: &str| t@)
}

/// The tokens that can start an operand, as error messages name them.
pub open spec fn operand_starts() -> Seq<Seq<char>> {
    seq!["\"!\""@, "\"(\""@, "\"+\""@, "\"-\""@, "\"[\""@, "\"~\""@, "CONSTANT"@, "ID"@]
}

/// The tokens that can start a statement, as error messages name them.
pub open spec fn statement_starts() -> Seq<Seq<char>> {
    operand_starts() + seq!["\"const\""@, "\"register\""@, "\"wire\""@]
}

/// The operators that can follow an operand, as error messages name them; the
/// comparisons and `in` only after an expression that has none.
pub open spec fn operators_after(after_comparison: bool) -> Seq<Seq<char>> {
    seq![
        "\"&\""@,
        "\"&&\""@,
        "\"*\""@,
        "\"+\""@,
        "\"-\""@,
        "\"/\""@,
        "\"<<\""@,
        "\">>\""@,
        "\"^\""@,
        "\"|\""@,
        "\"||\""@,
        "\"[\""@,
    ] + if after_comparison {
        Seq::empty()
    } else {
        seq!["\"!=\""@, "\"<\""@, "\"<=\""@, "\"==\""@, "\">\""@, "\">=\""@, "\"in\""@]
    }
}

/// Adds the names of tokens to a list of expected tokens.
fn push_all(v: &mut Vec<String>, names: &[&str])
    ensures
        final(v)@.len() == old(v)@.len() + names@.len(),
        names_of(final(v)@) == names_of(old(v)@) + texts_of(names@),
{
    let mut i: usize = 0;
    while i < names.len()
        invariant
            i <= names@.len(),
            v@.len() == old(v)@.len() + i,
            names_of(v@) == names_of(old(v)@) + texts_of(names@.take(i as int)),
        decreases names@.len() - i,
    {
        let ghost before = v@;
        let t = String::from_str(names[i]);
        assert(t@ == names@[i as int]@);
        v.push(t);
        proof {
            assert(names_of(v@) =~= names_of(before).push(t@));
            assert(texts_of(names@.take(i + 1)) =~= texts_of(names@.take(i as int)).push(names@[i as int]@));
            assert(names_of(v@) =~= names_of(old(v)@) + texts_of(names@.take(i + 1)));
        }
        i = i + 1;
    }
    proof {
        assert(names@.take(names@.len() as int) =~= names@);
    }
}

/// The tokens that can start an operand.
fn operand_expected() -> (r: Vec<String>)
    ensures
        names_of(r@) == operand_starts(),
{
    let mut v: Vec<String> = Vec::new();
    push_all(&mut v, &["\"!\"", "\"(\"", "\"+\"", "\"-\"", "\"[\"", "\"~\"", "CONSTANT", "ID"]);
    proof {
        assert(names_of(v@) =~= operand_starts());
    }
    v
}

/// The tokens that can start a statement.
fn statement_expected() -> (r: Vec<String>)
    ensures
        names_of(r@) == statement_starts(),
{
    let mut v = operand_expected();
    push_all(&mut v, &["\"const\"", "\"register\"", "\"wire\""]);
    proof {
        assert(names_of(v@) =~= statement_starts());
    }
    v
}

/// An error that reading the text into tokens can give.
pub open spec fn is_lexical(e: Error) -> bool {
    e is UnterminatedComment || e is LexicalError || e is InvalidConstant
}

/// A copy of an error that reading the text into tokens gave.
fn copy_lexical(e: &Error) -> (r: Error)
    requires
        is_lexical(*e),
    ensures
        r == *e,
{
    match e {
        Error::UnterminatedComment(l) => Error::UnterminatedComment(*l),
        Error::LexicalError(l) => Error::LexicalError(*l),
        Error::InvalidConstant(s) => Error::InvalidConstant(*s),
        _ => Error::EmptyFile(),
    }
}

/// Reads tokens, keeping the first lexical error for the point where the tokens end.
pub struct Parser {
    tokens: Vec<Token>,
    pos: usize,
    end: usize,
    lex_error: Option<Error>,
    last_comparison: bool,
    /// What has been read so far: each fact follows from the tokens and the others.
    facts: Ghost<Set<Fact>>,
}

impl Parser {
    pub closed spec fn wf(self) -> bool {
        &&& self.lex_error matches Some(e) ==> is_lexical(e)
        &&& self.pos <= self.tokens@.len()
        &&& tokens_valid(self.tokens@)
        &&& derivable(self.tokens@, self.facts@)
    }

    /// The tokens being read.
    pub closed spec fn tokens(self) -> Seq<Token> {
        self.tokens@
    }

    pub closed spec fn position(self) -> nat {
        self.pos as nat
    }

    pub closed spec fn num_tokens(self) -> nat {
        self.tokens@.len()
    }

    /// No lexical error ended the tokens.
    pub closed spec fn lexed_whole(self) -> bool {
        self.lex_error is None
    }

    /// The error for the next token when one of the named tokens was wanted: the
    /// token and the names; at the end of the tokens, the lexical error that ended
    /// them, if any, else the position after the last token and the names.
    pub closed spec fn unexpected_error(self, e: Error, names: Seq<Seq<char>>) -> bool {
        if self.pos < self.tokens@.len() {
            e matches Error::UnrecognizedToken { location, expected } && location == (
                self.tokens@[self.pos as int].0,
                self.tokens@[self.pos as int].2,
            ) && names_of(expected@) == names
        } else {
            match self.lex_error {
                Some(l) => e == l,
                None => e matches Error::UnrecognizedToken { location, expected } && location.0 == self.end
                    && names_of(expected@) == names,
            }
        }
    }

    /// A parser for the tokens of a lexer's text.
    pub fn new(lexer: &mut Lexer) -> (r: Parser)
        requires
            old(lexer).wf(),
            old(lexer).position() <= old(lexer).text().len(),
        ensures
            r.wf(),
            r.position() == 0,
            lexed_between(old(lexer).text(), old(lexer).position() as int, r.tokens()),
            old(lexer).position() == 0 && r.lexed_whole() ==> lexed_from(old(lexer).text(), r.tokens()),
            r.lexed_whole() ==> skipped(
                old(lexer).text(),
                gap_start(old(lexer).position() as int, r.tokens(), r.tokens().len() as int),
                old(lexer).text().len() as int,
            ),
            !r.lexed_whole() ==> exists|s: int, err: Error|
                #![trigger lex_fault(old(lexer).text(), s, err)]
                skipped(
                    old(lexer).text(),
                    gap_start(old(lexer).position() as int, r.tokens(), r.tokens().len() as int),
                    s,
                ) && lex_fault(old(lexer).text(), s, err),
    {
        let (tokens, lex_error) = tokenize(lexer);
        let end = if tokens.len() > 0 {
            tokens[tokens.len() - 1].2
        } else {
            0
        };
        proof {
            reveal(derivable);
        }
        Parser { tokens, pos: 0, end, lex_error, last_comparison: false, facts: Ghost(Set::empty()) }
    }

    /// Whether all tokens have been read.
    pub fn at_end(&self) -> (r: bool)
        requires
            self.wf(),
        ensures
            r == (self.position() == self.num_tokens()),
    {
        self.pos >= self.tokens.len()
    }

    /// The kind of the next token, or `T_END`.
    fn tag(&self) -> (r: u8)
        requires
            self.wf(),
        ensures
            self.pos < self.tokens@.len() ==> r == self.tokens@[self.pos as int].1.spec_tag(),
            self.pos >= self.tokens@.len() ==> r == T_END,
            r == T_END || r <= T_IDENTIFIER,
    {
        if self.pos < self.tokens.len() {
            self.tokens[self.pos].1.tag()
        } else {
            T_END
        }
    }

    /// The kind of the token after the next one, or `T_END`.
    fn tag_after(&self) -> (r: u8)
        requires
            self.wf(),
        ensures
            self.pos + 1 < self.tokens@.len() ==> r == self.tokens@[self.pos + 1].1.spec_tag(),
            self.pos + 1 >= self.tokens@.len() ==> r == T_END,
    {
        if self.tokens.len() - self.pos > 1 {
            self.tokens[self.pos + 1].1.tag()
        } else {
            T_END
        }
    }

    fn bump(&mut self) -> (r: (usize, usize))
        requires
            old(self).wf(),
            old(self).pos < old(self).tokens@.len(),
        ensures
            final(self).wf(),
            final(self).tokens == old(self).tokens,
            final(self).lex_error == old(self).lex_error,
            final(self).pos == old(self).pos + 1,
            final(self).facts == old(self).facts,
            r.0 == old(self).tokens@[old(self).pos as int].0,
            r.1 == old(self).tokens@[old(self).pos as int].2,
    {
        let n = self.tokens.len();
        let r = (self.tokens[self.pos].0, self.tokens[self.pos].2);
        self.pos = self.pos + 1;
        r
    }

    /// The error for the next token, which none of the expected tokens is.
    fn unexpected(&mut self, expected: Vec<String>) -> (r: Error)
        requires
            old(self).wf(),
        ensures
            final(self).wf(),
            final(self).tokens == old(self).tokens,
            final(self).lex_error == old(self).lex_error,
            final(self).pos == old(self).pos,
            final(self).facts == old(self).facts,
            old(self).unexpected_error(r, names_of(expected@)),
            old(self).pos < old(self).tokens@.len() ==> r == (Error::UnrecognizedToken {
                location: (old(self).tokens@[old(self).pos as int].0, old(self).tokens@[old(self).pos as int].2),
                expected,
            }),
            old(self).pos >= old(self).tokens@.len() ==> match old(self).lex_error {
                Some(e) => r == e,
                None => r == (Error::UnrecognizedToken {
                    location: (old(self).end, if old(self).end < usize::MAX {
                        (old(self).end + 1) as usize
                    } else {
                        old(self).end
                    }),
                    expected,
                }),
            },
    {
        if self.pos < self.tokens.len() {
            Error::UnrecognizedToken { location: (self.tokens[self.pos].0, self.tokens[self.pos].2), expected }
        } else {
            match &self.lex_error {
                Some(err) => copy_lexical(err),
                None => {
                    let loc = self.end;
                    let next = if loc < usize::MAX {
                        loc + 1
                    } else {
                        loc
                    };
                    Error::UnrecognizedToken { location: (loc, next), expected }
                },
            }
        }
    }

    /// The tokens that can follow a complete operand, and then the given ones.
    fn after_operand(&self, extra: &[&str]) -> (r: Vec<String>)
        ensures
            names_of(r@) == operators_after(self.last_comparison) + texts_of(extra@),
    {
        let mut v: Vec<String> = Vec::new();
        push_all(
            &mut v,
            &["\"&\"", "\"&&\"", "\"*\"", "\"+\"", "\"-\"", "\"/\"", "\"<<\"", "\">>\"", "\"^\"", "\"|\"", "\"||\"", "\"[\""],
        );
        if !self.last_comparison {
            push_all(&mut v, &["\"!=\"", "\"<\"", "\"<=\"", "\"==\"", "\">\"", "\">=\"", "\"in\""]);
        }
        push_all(&mut v, extra);
        proof {
            assert(names_of(v@) =~= operators_after(self.last_comparison) + texts_of(extra@));
        }
        v
    }

    /// Reads a token of the given kind, or reports the next token.
    fn expect(&mut self, tag: u8, expected: &[&str]) -> (r: Result<(usize, usize), Error>)
        requires
            old(self).wf(),
        ensures
            final(self).wf(),
            final(self).tokens == old(self).tokens,
            final(self).lex_error == old(self).lex_error,
            final(self).facts == old(self).facts,
            r is Ok ==> final(self).pos == old(self).pos + 1,
            r is Err ==> final(self).pos == old(self).pos,
            r matches Ok((s, e)) ==> old(self).pos < old(self).tokens@.len() && old(self).tokens@[old(
                self,
            ).pos as int].1.spec_tag() == tag && s == old(self).tokens@[old(self).pos as int].0 && e == old(
                self,
            ).tokens@[old(self).pos as int].2,
            r is Ok <==> (old(self).pos < old(self).tokens@.len() && old(self).tokens@[old(self).pos as int].1.spec_tag()
                == tag && tag != T_END),
            r matches Err(e) ==> old(self).unexpected_error(e, texts_of(expected@)),
    {
        if self.tag() == tag && tag != T_END {
            Ok(self.bump())
        } else {
            let mut v: Vec<String> = Vec::new();
            push_all(&mut v, expected);
            Err(self.unexpected(v))
        }
    }

    /// Reads an identifier.
    fn expect_identifier(&mut self, expected: &[&str]) -> (r: Result<(String, usize, usize), Error>)
        requires
            old(self).wf(),
        ensures
            final(self).wf(),
            final(self).tokens == old(self).tokens,
            final(self).lex_error == old(self).lex_error,
            final(self).facts == old(self).facts,
            r is Ok ==> final(self).pos == old(self).pos + 1,
            r is Err ==> final(self).pos == old(self).pos,
            r matches Ok((name, s, e)) ==> old(self).pos < old(self).tokens@.len() && old(self).tokens@[old(
                self,
            ).pos as int].1 == Tok::Identifier(name) && s == old(self).tokens@[old(self).pos as int].0 && e == old(
                self,
            ).tokens@[old(self).pos as int].2,
            r is Ok <==> (old(self).pos < old(self).tokens@.len() && old(self).tokens@[old(
                self,
            ).pos as int].1 is Identifier),
            r matches Err(e) ==> old(self).unexpected_error(e, texts_of(expected@)),
    {
        if self.pos < self.tokens.len() {
            match &self.tokens[self.pos].1 {
                Tok::Identifier(name) => {
                    let name = name.clone();
                    let (s, e) = self.bump();
                    return Ok((name, s, e));
                },
                _ => {},
            }
        }
        let mut v: Vec<String> = Vec::new();
        push_all(&mut v, expected);
        Err(self.unexpected(v))
    }

    /// Reads a constant.
    fn expect_constant(&mut self) -> (r: Result<(WireValue, usize, usize), Error>)
        requires
            old(self).wf(),
        ensures
            final(self).wf(),
            final(self).tokens == old(self).tokens,
            final(self).lex_error == old(self).lex_error,
            final(self).facts == old(self).facts,
            r is Ok ==> final(self).pos == old(self).pos + 1,
            r is Err ==> final(self).pos == old(self).pos,
            r matches Ok((v, _, _)) ==> v.valid(),
            r matches Ok((v, s, e)) ==> old(self).pos < old(self).tokens@.len() && old(self).tokens@[old(
                self,
            ).pos as int].1 == Tok::Constant(v) && s == old(self).tokens@[old(self).pos as int].0 && e == old(
                self,
            ).tokens@[old(self).pos as int].2,
            r is Ok <==> (old(self).pos < old(self).tokens@.len() && old(self).tokens@[old(
                self,
            ).pos as int].1 is Constant),
            r matches Err(e) ==> old(self).unexpected_error(e, seq!["CONSTANT"@]),
    {
        if self.pos < self.tokens.len() {
            match &self.tokens[self.pos].1 {
                Tok::Constant(v) => {
                    let v = *v;
                    proof {
                        assert(self.tokens@[self.pos as int].1 matches Tok::Constant(w) ==> w.valid());
                    }
                    let (s, e) = self.bump();
                    return Ok((v, s, e));
                },
                _ => {},
            }
        }
        let mut v: Vec<String> = Vec::new();
        push_all(&mut v, &["CONSTANT"]);
        assert(names_of(v@) =~= seq!["CONSTANT"@]);
        Err(self.unexpected(v))
    }

    /// Reads a bit index of a bit selection.
    fn expect_bit_index(&mut self) -> (r: Result<u8, Error>)
        requires
            old(self).wf(),
        ensures
            final(self).wf(),
            final(self).tokens == old(self).tokens,
            final(self).lex_error == old(self).lex_error,
            final(self).facts == old(self).facts,
            old(self).pos <= final(self).pos,
            r matches Ok(b) ==> final(self).pos == old(self).pos + 1 && constant_bits(
                old(self).tokens@[old(self).pos as int].1,
            ) == Some(b as u128),
            r is Ok <==> (old(self).pos < old(self).tokens@.len() && bit_index_token(
                old(self).tokens@[old(self).pos as int].1,
            )),
            r matches Err(e) ==> (old(self).pos < old(self).tokens@.len() && old(self).tokens@[old(
                self,
            ).pos as int].1 is Constant ==> e == Error::InvalidConstant(
                (old(self).tokens@[old(self).pos as int].0, old(self).tokens@[old(self).pos as int].2),
            )),
            r matches Err(e) ==> (!(old(self).pos < old(self).tokens@.len() && old(self).tokens@[old(
                self,
            ).pos as int].1 is Constant) ==> old(self).unexpected_error(e, seq!["CONSTANT"@])),
    {
        let (v, s, e) = self.expect_constant()?;
        if v.bits > 255 {
            Err(Error::InvalidConstant((s, e)))
        } else {
            Ok(v.bits as u8)
        }
    }

    /// Adds a fact that follows from the tokens and the facts so far.
    fn record(&mut self, Ghost(f): Ghost<Fact>)
        requires
            old(self).wf(),
            justified(old(self).tokens@, old(self).facts@, f),
        ensures
            final(self).wf(),
            final(self).tokens == old(self).tokens,
            final(self).lex_error == old(self).lex_error,
            final(self).pos == old(self).pos,
            final(self).facts@ == old(self).facts@.insert(f),
    {
        proof {
            lemma_add_fact(self.tokens@, self.facts@, f);
        }
        self.facts = Ghost(self.facts@.insert(f));
    }

    /// Reads an expression whose operators bind at least as tightly as the given level
    /// (11 for a whole expression).
    fn parse_level(&mut self, level: u8) -> (r: Result<SpannedExpr, Error>)
        requires
            old(self).wf(),
            level <= 11,
        ensures
            final(self).wf(),
            final(self).tokens == old(self).tokens,
            final(self).lex_error == old(self).lex_error,
            old(self).pos <= final(self).pos,
            old(self).facts@.subset_of(final(self).facts@),
            r matches Ok(e) ==> e.well_formed(),
            r is Ok ==> old(self).pos < final(self).pos,
            r matches Ok(e) ==> final(self).facts@.contains(
                (old(self).pos as int, final(self).pos as int, level as nat, e),
            ),
            lone_operand(old(self).tokens@, old(self).pos as int, level as nat) ==> r is Ok && final(self).pos == old(self).pos + 1
                && operand_of(old(self).tokens@, old(self).pos as int, r->Ok_0),
        decreases old(self).tokens@.len() - old(self).pos, 2 * level + 2,
    {
        let ghost a = self.pos as int;
        let ghost ts = self.tokens@;
        if level == 0 {
            self.parse_primary()
        } else if level == 1 {
            let mut e = self.parse_level(0)?;
            self.record(Ghost((a, self.pos as int, 1nat, e)));
            while self.tag() == T_OPEN_BRACKET
                invariant
                    self.wf(),
                    self.tokens == old(self).tokens,
                    self.lex_error == old(self).lex_error,
                    ts == self.tokens@,
                    a == old(self).pos,
                    a < self.pos,
                    old(self).facts@.subset_of(self.facts@),
                    self.facts@.contains((a, self.pos as int, 1nat, e)),
                    e.well_formed(),
                    lone_operand(ts, a, 1nat) ==> self.pos == a + 1 && operand_of(ts, a, e),
                    level == 1,
                decreases self.tokens@.len() - self.pos,
            {
                proof {
                    assert(!lone_operand(ts, a, 1nat));
                }
                let ghost q = self.pos as int;
                let ghost from = e;
                self.bump();
                let low = self.expect_bit_index()?;
                self.expect(T_DOT_DOT, &["\"..\""])?;
                let high = self.expect_bit_index()?;
                let (_, close_end) = self.expect(T_CLOSE_BRACKET, &["\"]\""])?;
                let start = e.span.0;
                e = SpannedExpr::new((start, close_end), Expr::BitSelect { from: e, low, high });
                proof {
                    assert(ts[q].1 is OpenBracket);
                    assert(ts[q + 2].1 is DotDot);
                    assert(ts[q + 4].1 is CloseBracket);
                    assert(self.facts@.contains((a, q, 1nat, from)));
                }
                self.record(Ghost((a, self.pos as int, 1nat, e)));
            }
            Ok(e)
        } else if level == 2 {
            let t = self.tag();
            match unop_at(t) {
                Some(op) => {
                    let (start, _) = self.bump();
                    let inner = self.parse_level(2)?;
                    let end = inner.span.1;
                    let e = SpannedExpr::new((start, end), Expr::UnOp(op, inner));
                    self.record(Ghost((a, self.pos as int, 2nat, e)));
                    Ok(e)
                },
                None => {
                    let e = self.parse_level(1)?;
                    self.record(Ghost((a, self.pos as int, 2nat, e)));
                    Ok(e)
                },
            }
        } else if level == 9 {
            self.parse_comparison()
        } else {
            let mut left = self.parse_level(level - 1)?;
            self.record(Ghost((a, self.pos as int, level as nat, left)));
            loop
                invariant
                    self.wf(),
                    self.tokens == old(self).tokens,
                    self.lex_error == old(self).lex_error,
                    ts == self.tokens@,
                    a == old(self).pos,
                    a < self.pos,
                    old(self).facts@.subset_of(self.facts@),
                    self.facts@.contains((a, self.pos as int, level as nat, left)),
                    left.well_formed(),
                    3 <= level <= 11,
                    level != 9,
                    lone_operand(ts, a, level as nat) ==> self.pos == a + 1 && operand_of(ts, a, left),
                decreases self.tokens@.len() - self.pos,
            {
                let ghost k = self.pos as int;
                let ghost l0 = left;
                let tag = self.tag();
                match binop_at(level, tag) {
                    Some(op) => {
                        proof {
                            assert(!lone_operand(ts, a, level as nat));
                        }
                        self.bump();
                        let right = self.parse_level(level - 1)?;
                        let span = (left.span.0, right.span.1);
                        left = SpannedExpr::new(span, Expr::BinOp(op, left, right));
                        proof {
                            assert(self.facts@.contains((a, k, level as nat, l0)));
                            assert(spec_binop_at(level as nat, ts[k].1) == Some(op));
                        }
                        self.record(Ghost((a, self.pos as int, level as nat, left)));
                    },
                    None => {
                        return Ok(left);
                    },
                }
            }
        }
    }

    /// Reads a comparison, a set membership test, or an expression without either.
    fn parse_comparison(&mut self) -> (r: Result<SpannedExpr, Error>)
        requires
            old(self).wf(),
        ensures
            final(self).wf(),
            final(self).tokens == old(self).tokens,
            final(self).lex_error == old(self).lex_error,
            old(self).pos <= final(self).pos,
            old(self).facts@.subset_of(final(self).facts@),
            r matches Ok(e) ==> e.well_formed(),
            r is Ok ==> old(self).pos < final(self).pos,
            r matches Ok(e) ==> final(self).facts@.contains((old(self).pos as int, final(self).pos as int, 9nat, e)),
            lone_operand(old(self).tokens@, old(self).pos as int, 9nat) ==> r is Ok && final(self).pos == old(self).pos + 1
                && operand_of(old(self).tokens@, old(self).pos as int, r->Ok_0),
        decreases old(self).tokens@.len() - old(self).pos, 19int,
    {
        let ghost a = self.pos as int;
        let ghost ts = self.tokens@;
        let left = self.parse_level(8)?;
        let ghost k = self.pos as int;
        let ghost l0 = left;
        let tag = self.tag();
        match comparison_at(tag) {
            Some(op) => {
                self.bump();
                let right = self.parse_level(8)?;
                self.last_comparison = true;
                let span = (left.span.0, right.span.1);
                let e = SpannedExpr::new(span, Expr::BinOp(op, left, right));
                proof {
                    assert(self.facts@.contains((a, k, 8nat, l0)));
                    assert(spec_comparison_at(ts[k].1) == Some(op));
                }
                self.record(Ghost((a, self.pos as int, 9nat, e)));
                return Ok(e);
            },
            None => {},
        }
        if tag == T_IN {
            self.bump();
            self.expect(T_OPEN_BRACE, &["\"{\""])?;
            let ghost first = self.pos as int;
            let mut items: Vec<SpannedExpr> = Vec::new();
            let mut close_end: usize = 0;
            loop
                invariant_except_break
                    items@.len() == 0 ==> self.pos == first,
                    items@.len() > 0 ==> first < self.pos - 1 && ts[self.pos - 1].1 is Comma && set_items(
                        ts,
                        self.facts@,
                        first,
                        self.pos - 1,
                        items@,
                    ),
                invariant
                    self.wf(),
                    self.tokens == old(self).tokens,
                    self.lex_error == old(self).lex_error,
                    ts == self.tokens@,
                    old(self).pos < self.pos,
                    a == old(self).pos,
                    first == k + 2,
                    first <= self.pos,
                    ts[k].1 is In,
                    ts[k + 1].1 is OpenBrace,
                    !lone_operand(ts, a, 9nat),
                    old(self).facts@.subset_of(self.facts@),
                    self.facts@.contains((a, k, 8nat, l0)),
                    forall|j: int| #![trigger items@[j]] 0 <= j < items@.len() ==> items@[j].well_formed(),
                ensures
                    items@.len() > 0,
                    first < self.pos - 1,
                    ts[self.pos - 1].1 is CloseBrace,
                    close_end == ts[self.pos - 1].2,
                    set_items(ts, self.facts@, first, self.pos - 1, items@),
                decreases self.tokens@.len() - self.pos,
            {
                let ghost q = self.pos as int;
                let ghost before = self.facts@;
                let ghost old_items = items@;
                let item = self.parse_level(11)?;
                let ghost t_end = self.pos as int;
                let ghost it = item;
                items.push(item);
                proof {
                    lemma_set_items_step(ts, before, self.facts@, first, q, t_end, old_items, it);
                }
                let t = self.tag();
                if t == T_COMMA {
                    self.bump();
                } else if t == T_CLOSE_BRACE {
                    let (_, e) = self.bump();
                    close_end = e;
                    break;
                } else {
                    let v = self.after_operand(&["\",\"", "\"}\""]);
                    return Err(self.unexpected(v));
                }
            }
            self.last_comparison = true;
            proof {
                lemma_items_all(items@, 0);
            }
            let span = (left.span.0, close_end);
            let e = SpannedExpr::new(span, Expr::InSet(left, items));
            self.record(Ghost((a, self.pos as int, 9nat, e)));
            return Ok(e);
        }
        self.last_comparison = false;
        self.record(Ghost((a, self.pos as int, 9nat, left)));
        Ok(left)
    }

    /// Reads a constant, a wire name, a parenthesized expression or concatenation, or a mux.
    fn parse_primary(&mut self) -> (r: Result<SpannedExpr, Error>)
        requires
            old(self).wf(),
        ensures
            final(self).wf(),
            final(self).tokens == old(self).tokens,
            final(self).lex_error == old(self).lex_error,
            old(self).pos <= final(self).pos,
            old(self).facts@.subset_of(final(self).facts@),
            r matches Ok(e) ==> e.well_formed(),
            r is Ok ==> old(self).pos < final(self).pos,
            r matches Ok(e) ==> final(self).facts@.contains((old(self).pos as int, final(self).pos as int, 0nat, e)),
            lone_operand(old(self).tokens@, old(self).pos as int, 0nat) ==> r is Ok && final(self).pos == old(self).pos + 1
                && operand_of(old(self).tokens@, old(self).pos as int, r->Ok_0),
        decreases old(self).tokens@.len() - old(self).pos, 0int,
    {
        let ghost a = self.pos as int;
        let ghost ts = self.tokens@;
        let tag = self.tag();
        if tag == T_CONSTANT {
            let (v, s, e) = self.expect_constant()?;
            let r = SpannedExpr::new((s, e), Expr::Constant(v));
            self.record(Ghost((a, self.pos as int, 0nat, r)));
            Ok(r)
        } else if tag == T_IDENTIFIER {
            let (name, s, e) = self.expect_identifier(&["ID"])?;
            let r = SpannedExpr::new((s, e), Expr::NamedWire(name));
            self.record(Ghost((a, self.pos as int, 0nat, r)));
            Ok(r)
        } else if tag == T_OPEN_PAREN {
            let (start, _) = self.bump();
            let mut inner = self.parse_level(11)?;
            self.record(Ghost((a + 1, self.pos as int, 12nat, inner)));
            let mut concatenated = false;
            while self.tag() == T_DOT_DOT
                invariant
                    self.wf(),
                    self.tokens == old(self).tokens,
                    self.lex_error == old(self).lex_error,
                    ts == self.tokens@,
                    a == old(self).pos,
                    ts[a].1 is OpenParen,
                    start == ts[a].0,
                    a + 1 < self.pos,
                    old(self).facts@.subset_of(self.facts@),
                    self.facts@.contains((a + 1, self.pos as int, 12nat, inner)),
                    !concatenated ==> self.facts@.contains((a + 1, self.pos as int, 11nat, inner)),
                    concatenated ==> (*inner.expr matches Expr::Concat(l, r) && inner.span == (l.span.0, r.span.1)),
                    inner.well_formed(),
                decreases self.tokens@.len() - self.pos,
            {
                let ghost k = self.pos as int;
                let ghost l0 = inner;
                self.bump();
                let right = self.parse_level(11)?;
                let span = (inner.span.0, right.span.1);
                inner = SpannedExpr::new(span, Expr::Concat(inner, right));
                concatenated = true;
                proof {
                    assert(ts[k].1 is DotDot);
                    assert(self.facts@.contains((a + 1, k, 12nat, l0)));
                }
                self.record(Ghost((a + 1, self.pos as int, 12nat, inner)));
            }
            if self.tag() != T_CLOSE_PAREN {
                let v = self.after_operand(&["\")\"", "\"..\""]);
                return Err(self.unexpected(v));
            }
            let ghost chain = inner;
            let (_, end) = self.bump();
            if concatenated {
                inner.span = (start, end);
            }
            proof {
                assert(ts[self.pos - 1].1 is CloseParen);
                if concatenated {
                    assert(SpannedExpr { expr: inner.expr, span: chain.span } == chain);
                }
            }
            self.record(Ghost((a, self.pos as int, 0nat, inner)));
            Ok(inner)
        } else if tag == T_OPEN_BRACKET {
            let (start, _) = self.bump();
            let mut options: Vec<MuxOption> = Vec::new();
            let mut end: usize = 0;
            loop
                invariant_except_break
                    terminated_options(ts, self.facts@, a + 1, self.pos as int, options@),
                invariant
                    self.wf(),
                    self.tokens == old(self).tokens,
                    self.lex_error == old(self).lex_error,
                    ts == self.tokens@,
                    a == old(self).pos,
                    ts[a].1 is OpenBracket,
                    start == ts[a].0,
                    old(self).pos < self.pos,
                    a + 1 <= self.pos,
                    old(self).facts@.subset_of(self.facts@),
                    forall|j: int|
                        #![trigger options@[j]]
                        0 <= j < options@.len() ==> options@[j].condition.well_formed()
                            && options@[j].value.well_formed(),
                ensures
                    ts[self.pos - 1].1 is CloseBracket,
                    end == ts[self.pos - 1].2,
                    mux_body(ts, self.facts@, a + 1, self.pos - 1, options@),
                decreases self.tokens@.len() - self.pos,
            {
                let ghost q = self.pos as int;
                let ghost before = self.facts@;
                let ghost old_options = options@;
                let condition = self.parse_level(11)?;
                let ghost m = self.pos as int;
                if self.tag() != T_COLON {
                    let v = self.after_operand(&["\":\""]);
                    return Err(self.unexpected(v));
                }
                self.bump();
                let value = self.parse_level(11)?;
                let ghost t_end = self.pos as int;
                let ghost o = MuxOption { condition, value };
                options.push(MuxOption { condition, value });
                proof {
                    assert(ts[m].1 is Colon);
                    lemma_option_step(ts, before, self.facts@, a + 1, q, m, t_end, old_options, o);
                }
                let t = self.tag();
                if t == T_SEMICOLON {
                    self.bump();
                    proof {
                        assert(ts[t_end].1 is Semicolon);
                    }
                    if self.tag() == T_CLOSE_BRACKET {
                        let (_, e) = self.bump();
                        end = e;
                        break;
                    }
                } else if t == T_CLOSE_BRACKET {
                    let (_, e) = self.bump();
                    end = e;
                    break;
                } else {
                    let v = self.after_operand(&["\";\"", "\"]\""]);
                    return Err(self.unexpected(v));
                }
            }
            proof {
                lemma_options_all(options@, 0);
            }
            let r = SpannedExpr::new((start, end), Expr::Mux(options));
            self.record(Ghost((a, self.pos as int, 0nat, r)));
            Ok(r)
        } else {
            let v = operand_expected();
            Err(self.unexpected(v))
        }
    }

    /// Checks that all tokens were read, and that the text had no lexical error.
    pub fn finish(&mut self) -> (r: Result<(), Error>)
        requires
            old(self).wf(),
        ensures
            final(self).wf(),
            final(self).tokens() == old(self).tokens(),
            final(self).position() == old(self).position(),
            r is Ok ==> final(self).position() == final(self).num_tokens(),
            r is Ok <==> (old(self).position() == old(self).num_tokens() && old(self).lexed_whole()),
            final(self).lexed_whole() == old(self).lexed_whole(),
    {
        if self.pos < self.tokens.len() {
            let v = self.after_operand(&[]);
            return Err(self.unexpected(v));
        }
        match &self.lex_error {
            Some(e) => Err(copy_lexical(e)),
            None => Ok(()),
        }
    }

    /// Reads `wire` and declarations `name : width` separated by commas. A declaration
    /// with a value, without a width, or with a width over 128 bits is reported in
    /// `errors` and left out.
    fn parse_wire_decls(&mut self, errors: &mut Vec<Error>) -> (r: Result<Vec<WireDecl>, Error>)
        requires
            old(self).wf(),
        ensures
            final(self).wf(),
            final(self).tokens == old(self).tokens,
            final(self).lex_error == old(self).lex_error,
            old(self).pos <= final(self).pos,
            r is Ok ==> old(self).pos < final(self).pos,
            r matches Ok(ds) ==> forall|i: int| 0 <= i < ds@.len() ==> (#[trigger] ds@[i]).width.valid(),
            old(self).facts@.subset_of(final(self).facts@),
    {
        self.expect(T_WIRE, &["\"wire\""])?;
        let mut decls: Vec<WireDecl> = Vec::new();
        loop
            invariant
                self.wf(),
                self.tokens == old(self).tokens,
                self.lex_error == old(self).lex_error,
                old(self).pos < self.pos,
                forall|i: int| 0 <= i < decls@.len() ==> (#[trigger] decls@[i]).width.valid(),
                old(self).facts@.subset_of(self.facts@),
            decreases self.tokens@.len() - self.pos,
        {
            let (name, name_start, name_end) = self.expect_identifier(&["ID"])?;
            let t = self.tag();
            if t == T_COLON {
                self.bump();
                let (width, width_start, width_end) = self.expect_constant()?;
                if self.tag() == T_ASSIGN {
                    self.bump();
                    let value = self.parse_level(11)?;
                    errors.push(Error::WireAssignedInDeclaration((name_start, value.span.1)));
                } else if width.bits > 128 {
                    errors.push(Error::InvalidWireWidth((width_start, width_end)));
                } else {
                    decls.push(
                        WireDecl { name, width: WireWidth::Bits(width.bits as u8), span: (name_start, width_end) },
                    );
                }
            } else if t == T_ASSIGN {
                self.bump();
                let value = self.parse_level(11)?;
                errors.push(Error::WireAssignedInDeclaration((name_start, value.span.1)));
                errors.push(Error::MissingWireWidth((name_start, value.span.1)));
            } else if t == T_COMMA || t == T_SEMICOLON || t == T_END {
                errors.push(Error::MissingWireWidth((name_start, name_end)));
            } else {
                let mut v: Vec<String> = Vec::new();
                push_all(&mut v, &["\":\""]);
                return Err(self.unexpected(v));
            }
            if self.tag() == T_COMMA {
                self.bump();
            } else {
                return Ok(decls);
            }
        }
    }

    /// Reads `const` and declarations `name = value` separated by commas. A declaration
    /// with a width is reported in `errors` and left out.
    fn parse_const_decls(&mut self, errors: &mut Vec<Error>) -> (r: Result<Vec<ConstDecl>, Error>)
        requires
            old(self).wf(),
        ensures
            final(self).wf(),
            final(self).tokens == old(self).tokens,
            final(self).lex_error == old(self).lex_error,
            old(self).pos <= final(self).pos,
            r is Ok ==> old(self).pos < final(self).pos,
            r matches Ok(ds) ==> forall|i: int| 0 <= i < ds@.len() ==> (#[trigger] ds@[i]).value.well_formed(),
            old(self).facts@.subset_of(final(self).facts@),
            r matches Ok(ds) ==> forall|i: int| 0 <= i < ds@.len() ==> read_in(final(self).facts@, (#[trigger] ds@[i]).value),
    {
        self.expect(T_CONST, &["\"const\""])?;
        let mut decls: Vec<ConstDecl> = Vec::new();
        loop
            invariant
                self.wf(),
                self.tokens == old(self).tokens,
                self.lex_error == old(self).lex_error,
                old(self).pos < self.pos,
                forall|i: int| 0 <= i < decls@.len() ==> (#[trigger] decls@[i]).value.well_formed(),
                old(self).facts@.subset_of(self.facts@),
                forall|i: int| 0 <= i < decls@.len() ==> read_in(self.facts@, (#[trigger] decls@[i]).value),
            decreases self.tokens@.len() - self.pos,
        {
            let ghost before = self.facts@;
            let (name, name_start, name_end) = self.expect_identifier(&["ID"])?;
            if self.tag() == T_COLON {
                self.bump();
                self.expect_constant()?;
                self.expect(T_ASSIGN, &["\"=\""])?;
                let value = self.parse_level(11)?;
                errors.push(Error::AddedConstWidth((name_start, value.span.1)));
            } else {
                self.expect(T_ASSIGN, &["\":\"", "\"=\""])?;
                let ghost a = self.pos as int;
                let value = self.parse_level(11)?;
                proof {
                    assert(self.facts@.contains((a, self.pos as int, 11nat, value)));
                }
                decls.push(ConstDecl { name, name_span: (name_start, name_end), value });
            }
            proof {
                assert forall|i: int| 0 <= i < decls@.len() implies read_in(self.facts@, (#[trigger] decls@[i]).value) by {
                    if i < decls@.len() - 1 || decls@.len() == 0 {
                        lemma_read_in_mono(before, self.facts@, decls@[i].value);
                    }
                }
            }
            if self.tag() == T_COMMA {
                self.bump();
            } else {
                return Ok(decls);
            }
        }
    }

    /// Reads a register `name : width = default` and the `;` after it, if any. A
    /// register written without a width, or with `wire` before it, is reported in
    /// `errors` and gives `None`.
    fn parse_register_decl(&mut self, errors: &mut Vec<Error>) -> (r: Result<Option<RegisterDecl>, Error>)
        requires
            old(self).wf(),
        ensures
            final(self).wf(),
            final(self).tokens == old(self).tokens,
            final(self).lex_error == old(self).lex_error,
            old(self).pos <= final(self).pos,
            r is Ok ==> old(self).pos < final(self).pos,
            r matches Ok(Some(d)) ==> d.default.well_formed() && d.width.valid(),
            old(self).facts@.subset_of(final(self).facts@),
            r matches Ok(Some(d)) ==> read_in(final(self).facts@, d.default),
    {
        let mut with_wire: Option<usize> = None;
        if self.tag() == T_WIRE {
            let (s, _) = self.bump();
            with_wire = Some(s);
        }
        let (name, name_start, _) = self.expect_identifier(&["\"wire\"", "\"}\"", "ID"])?;
        let start = match with_wire {
            Some(w) => w,
            None => name_start,
        };
        let result: Option<RegisterDecl>;
        if self.tag() == T_ASSIGN {
            self.bump();
            let value = self.parse_level(11)?;
            errors.push(Error::MissingRegisterWidth((start, value.span.1)));
            result = None;
        } else {
            self.expect(T_COLON, &["\":\"", "\"=\""])?;
            let (width, width_start, width_end) = self.expect_constant()?;
            self.expect(T_ASSIGN, &["\"=\""])?;
            let ghost a = self.pos as int;
            let default = self.parse_level(11)?;
            proof {
                assert(self.facts@.contains((a, self.pos as int, 11nat, default)));
            }
            let end = default.span.1;
            if with_wire.is_some() {
                errors.push(Error::RegisterDeclaredWithWire((start, end)));
                result = None;
            } else if width.bits > 128 {
                errors.push(Error::InvalidWireWidth((width_start, width_end)));
                result = None;
            } else {
                result = Some(
                    RegisterDecl { span: (start, end), name, width: WireWidth::Bits(width.bits as u8), default },
                );
            }
        }
        let t = self.tag();
        if t == T_SEMICOLON {
            self.bump();
        } else if t != T_CLOSE_BRACE {
            let v = self.after_operand(&["\";\"", "\"}\""]);
            return Err(self.unexpected(v));
        }
        Ok(result)
    }

    /// Reads a register bank `register xY { ... }` and the `;` after it, if any.
    fn parse_register_bank(&mut self, errors: &mut Vec<Error>) -> (r: Result<Option<Statement>, Error>)
        requires
            old(self).wf(),
        ensures
            final(self).wf(),
            final(self).tokens == old(self).tokens,
            final(self).lex_error == old(self).lex_error,
            old(self).pos <= final(self).pos,
            r is Ok ==> old(self).pos < final(self).pos,
            r matches Ok(Some(st)) ==> statement_well_formed(st),
            old(self).facts@.subset_of(final(self).facts@),
            r matches Ok(Some(st)) ==> statement_read_in(final(self).facts@, st),
    {
        let (start, _) = self.expect(T_REGISTER, &["\"register\""])?;
        let (name, name_start, name_end) = self.expect_identifier(&["ID"])?;
        self.expect(T_OPEN_BRACE, &["\"{\""])?;
        let mut registers: Vec<RegisterDecl> = Vec::new();
        loop
            invariant
                self.wf(),
                self.tokens == old(self).tokens,
                self.lex_error == old(self).lex_error,
                old(self).pos < self.pos,
                forall|i: int| 0 <= i < registers@.len() ==> (#[trigger] registers@[i]).default.well_formed(),
                old(self).facts@.subset_of(self.facts@),
                forall|i: int| 0 <= i < registers@.len() ==> read_in(self.facts@, (#[trigger] registers@[i]).default),
            decreases self.tokens@.len() - self.pos,
        {
            let t = self.tag();
            if t == T_CLOSE_BRACE {
                let (_, end) = self.bump();
                if self.tag() == T_SEMICOLON {
                    self.bump();
                }
                let bank = RegisterBankDecl { span: (start, end), name, name_span: (name_start, name_end), registers };
                return Ok(Some(Statement::RegisterBankDecl(bank)));
            }
            if t == T_END {
                let mut v: Vec<String> = Vec::new();
                push_all(&mut v, &["\"wire\"", "\"}\"", "ID"]);
                return Err(self.unexpected(v));
            }
            let before = self.pos;
            let ghost known = self.facts@;
            let ghost known_registers = registers@;
            match self.parse_register_decl(errors) {
                Ok(Some(r)) => {
                    registers.push(r);
                },
                Ok(None) => {},
                Err(e) => {
                    if self.pos >= self.tokens.len() {
                        return Err(e);
                    }
                    errors.push(e);
                    while self.pos < self.tokens.len() && self.tag() != T_SEMICOLON && self.tag() != T_CLOSE_BRACE
                        invariant
                            self.wf(),
                            self.tokens == old(self).tokens,
                            self.lex_error == old(self).lex_error,
                            before <= self.pos,
                            old(self).facts@.subset_of(self.facts@),
                            known.subset_of(self.facts@),
                        decreases self.tokens@.len() - self.pos,
                    {
                        self.bump();
                    }
                    if self.pos >= self.tokens.len() {
                        return Ok(None);
                    }
                    if self.tag() == T_SEMICOLON || self.pos == before {
                        self.bump();
                    }
                },
            }
            proof {
                assert forall|i: int| 0 <= i < registers@.len() implies read_in(
                    self.facts@,
                    (#[trigger] registers@[i]).default,
                ) by {
                    if i < known_registers.len() {
                        lemma_read_in_mono(known, self.facts@, registers@[i].default);
                    }
                }
            }
        }
    }

    /// Reads an assignment `name, ... = value;`; the `;` may be left out after a mux.
    fn parse_assignment(&mut self) -> (r: Result<Option<Statement>, Error>)
        requires
            old(self).wf(),
        ensures
            final(self).wf(),
            final(self).tokens == old(self).tokens,
            final(self).lex_error == old(self).lex_error,
            old(self).pos <= final(self).pos,
            r is Ok ==> old(self).pos < final(self).pos,
            r matches Ok(Some(st)) ==> statement_well_formed(st),
            old(self).facts@.subset_of(final(self).facts@),
            r matches Ok(Some(st)) ==> statement_read_in(final(self).facts@, st),
    {
        let mut names: Vec<(String, (usize, usize))> = Vec::new();
        let (first, start, first_end) = self.expect_identifier(&["ID"])?;
        names.push((first, (start, first_end)));
        while self.tag() == T_COMMA
            invariant
                self.wf(),
                self.tokens == old(self).tokens,
                self.lex_error == old(self).lex_error,
                old(self).pos < self.pos,
                self.facts == old(self).facts,
            decreases self.tokens@.len() - self.pos,
        {
            self.bump();
            let (name, s, e) = self.expect_identifier(&["ID"])?;
            names.push((name, (s, e)));
        }
        self.expect(T_ASSIGN, &["\",\"", "\"=\""])?;
        let ghost a = self.pos as int;
        let value = self.parse_level(11)?;
        proof {
            assert(self.facts@.contains((a, self.pos as int, 11nat, value)));
        }
        let is_mux = match &*value.expr {
            Expr::Mux(_) => true,
            _ => false,
        };
        if self.tag() == T_SEMICOLON {
            self.bump();
        } else if !is_mux {
            let v = self.after_operand(&["\";\""]);
            return Err(self.unexpected(v));
        }
        let end = value.span.1;
        let mut assignments: Vec<Assignment> = Vec::new();
        assignments.push(Assignment { span: (start, end), names, value });
        Ok(Some(Statement::Assignments(assignments)))
    }

    /// Reads one statement; `None` for one that was reported in `errors`.
    fn parse_statement(&mut self, errors: &mut Vec<Error>) -> (r: Result<Option<Statement>, Error>)
        requires
            old(self).wf(),
        ensures
            final(self).wf(),
            final(self).tokens == old(self).tokens,
            final(self).lex_error == old(self).lex_error,
            old(self).pos <= final(self).pos,
            r is Ok ==> old(self).pos < final(self).pos,
            r matches Ok(Some(st)) ==> statement_well_formed(st),
            old(self).facts@.subset_of(final(self).facts@),
            r matches Ok(Some(st)) ==> statement_read_in(final(self).facts@, st),
    {
        let t = self.tag();
        let next = self.tag_after();
        if t == T_CONST {
            let decls = self.parse_const_decls(errors)?;
            if self.tag() != T_SEMICOLON {
                let v = self.after_operand(&["\",\"", "\";\""]);
                return Err(self.unexpected(v));
            }
            self.bump();
            Ok(Some(Statement::ConstDecls(decls)))
        } else if t == T_WIRE {
            let decls = self.parse_wire_decls(errors)?;
            self.expect(T_SEMICOLON, &["\",\"", "\";\""])?;
            Ok(Some(Statement::WireDecls(decls)))
        } else if t == T_REGISTER {
            self.parse_register_bank(errors)
        } else if t == T_IDENTIFIER && (next == T_ASSIGN || next == T_COMMA) {
            self.parse_assignment()
        } else if t == T_IDENTIFIER && next == T_OPEN_BRACKET {
            let (_, s, e) = self.expect_identifier(&["ID"])?;
            self.parse_level(11)?;
            if self.tag() == T_SEMICOLON {
                self.bump();
            }
            errors.push(Error::MissingAssignmentMux((s, e)));
            Ok(None)
        } else if t == T_IDENTIFIER || t == T_CONSTANT || t == T_OPEN_PAREN || t == T_OPEN_BRACKET || unop_at(
            t,
        ).is_some() {
            let e = self.parse_level(11)?;
            if self.tag() != T_SEMICOLON {
                let v = self.after_operand(&["\";\""]);
                return Err(self.unexpected(v));
            }
            self.bump();
            errors.push(Error::ExpectedStatementFoundExpr(e));
            Ok(None)
        } else {
            let v = statement_expected();
            Err(self.unexpected(v))
        }
    }

    /// Reads statements up to the end of the tokens. After a syntax error, the error
    /// goes to `errors` and reading goes on after the next `;`. An error at the end
    /// of the tokens, or the lexical error that ended them, is returned.
    pub fn parse_statements(&mut self, errors: &mut Vec<Error>) -> (r: Result<Vec<Statement>, Error>)
        requires
            old(self).wf(),
        ensures
            final(self).wf(),
            r matches Ok(sts) ==> statements_well_formed(sts@),
            final(self).tokens() == old(self).tokens(),
            r matches Ok(sts) ==> statements_read_from(final(self).tokens(), sts@),
            old(self).position() == old(self).num_tokens() ==> (r is Ok <==> old(self).lexed_whole()),
            r is Ok ==> old(self).lexed_whole(),
            final(self).lexed_whole() == old(self).lexed_whole(),
            old(self).position() == old(self).num_tokens() ==> (r matches Ok(sts) ==> sts@.len() == 0),
    {
        let mut statements: Vec<Statement> = Vec::new();
        loop
            invariant
                self.wf(),
                self.tokens == old(self).tokens,
                self.lex_error == old(self).lex_error,
                statements_well_formed(statements@),
                forall|i: int| 0 <= i < statements@.len() ==> statement_read_in(self.facts@, #[trigger] statements@[i]),
                old(self).pos == old(self).tokens@.len() ==> self.pos == old(self).pos && statements@.len() == 0,
            decreases self.tokens@.len() - self.pos,
        {
            if self.pos >= self.tokens.len() {
                return match &self.lex_error {
                    Some(e) => Err(copy_lexical(e)),
                    None => Ok(statements),
                };
            }
            let before = self.pos;
            let ghost known = self.facts@;
            let ghost known_statements = statements@;
            match self.parse_statement(errors) {
                Ok(Some(st)) => {
                    statements.push(st);
                },
                Ok(None) => {},
                Err(e) => {
                    if self.pos >= self.tokens.len() {
                        return Err(e);
                    }
                    errors.push(e);
                    let at_error = self.pos;
                    let ghost count = self.tokens@.len();
                    while self.pos < self.tokens.len() && self.tag() != T_SEMICOLON
                        invariant
                            self.wf(),
                            self.tokens@.len() == count,
                            self.tokens == old(self).tokens,
                            self.lex_error == old(self).lex_error,
                            known.subset_of(self.facts@),
                            before <= at_error <= self.pos,
                            at_error < count,
                        decreases self.tokens@.len() - self.pos,
                    {
                        self.bump();
                    }
                    if self.pos < self.tokens.len() {
                        self.bump();
                    }
                },
            }
            proof {
                assert forall|i: int| 0 <= i < statements@.len() implies statement_read_in(
                    self.facts@,
                    #[trigger] statements@[i],
                ) by {
                    if i < known_statements.len() {
                        lemma_statement_read_in_mono(known, self.facts@, statements@[i]);
                    }
                }
            }
        }
    }

    /// Reads a whole expression: the tokens read derive it by the grammar of
    /// expressions.
    pub fn parse_expr(&mut self) -> (r: Result<SpannedExpr, Error>)
        requires
            old(self).wf(),
        ensures
            final(self).wf(),
            final(self).tokens() == old(self).tokens(),
            final(self).lexed_whole() == old(self).lexed_whole(),
            old(self).position() <= final(self).position(),
            r matches Ok(e) ==> e.well_formed(),
            r matches Ok(e) ==> derives(
                final(self).tokens(),
                old(self).position() as int,
                final(self).position() as int,
                11,
                e,
            ),
            lone_operand(old(self).tokens(), old(self).position() as int, 11) ==> r is Ok && final(self).position()
                == old(self).position() + 1 && operand_of(old(self).tokens(), old(self).position() as int, r->Ok_0),
    {
        self.parse_level(11)
    }
}

/// Reads a whole expression from a text: the text's tokens, all of them, derive it by
/// the grammar of expressions.
pub fn parse_expr_str(text: &str) -> (r: Result<SpannedExpr, Error>)
    ensures
        r matches Ok(e) ==> e.well_formed(),
        r matches Ok(e) ==> exists|ts: Seq<Token>|
            #![trigger lexed_from(text@, ts)]
            lexed_from(text@, ts) && derives(ts, 0, ts.len() as int, 11, e),
{
    let mut lexer = Lexer::new(text);
    let mut parser = Parser::new(&mut lexer);
    let e = parser.parse_expr()?;
    parser.finish()?;
    Ok(e)
}

/// Reads `wire` and wire declarations from a text.
pub fn parse_wire_decls_str(text: &str, errors: &mut Vec<Error>) -> (r: Result<Vec<WireDecl>, Error>)
    ensures
        r matches Ok(ds) ==> forall|i: int| 0 <= i < ds@.len() ==> (#[trigger] ds@[i]).width.valid(),
{
    let mut lexer = Lexer::new(text);
    let mut parser = Parser::new(&mut lexer);
    let decls = parser.parse_wire_decls(errors)?;
    parser.finish()?;
    Ok(decls)
}

/// Reads `const` and constant declarations from a text.
pub fn parse_const_decls_str(text: &str, errors: &mut Vec<Error>) -> (r: Result<Vec<ConstDecl>, Error>)
    ensures
        r matches Ok(ds) ==> forall|i: int| 0 <= i < ds@.len() ==> (#[trigger] ds@[i]).value.well_formed(),
        r matches Ok(ds) ==> exists|ts: Seq<Token>|
            #![trigger lexed_from(text@, ts)]
            lexed_from(text@, ts) && const_values_read_from(ts, ds@),
{
    let mut lexer = Lexer::new(text);
    let mut parser = Parser::new(&mut lexer);
    let decls = parser.parse_const_decls(errors)?;
    proof {
        assert(const_values_read_from(parser.tokens@, decls@));
    }
    parser.finish()?;
    Ok(decls)
}

/// Reads the statements of a text; see `Parser::parse_statements`.
pub fn parse_statements_str(text: &str, errors: &mut Vec<Error>) -> (r: Result<Vec<Statement>, Error>)
    ensures
        r matches Ok(sts) ==> statements_well_formed(sts@),
        r matches Ok(sts) ==> exists|ts: Seq<Token>|
            #![trigger lexed_from(text@, ts)]
            lexed_from(text@, ts) && statements_read_from(ts, sts@),
{
    let mut lexer = Lexer::new(text);
    let mut parser = Parser::new(&mut lexer);
    parser.parse_statements(errors)
}


/// Each comparison token stands for the comparison it is written as: read from the
/// token, the operator gives 1 exactly when its operands are in that relation.
pub proof fn law_comparison_tokens(x: u128, y: u128)
    ensures
        fixed_text(Tok::LessEqual) == Some(seq!['<', '=']),
        spec_comparison_at(Tok::LessEqual) matches Some(op)
            && op.spec_apply_raw(x, y) == (if x <= y { 1u128 } else { 0u128 }),
        fixed_text(Tok::GreaterEqual) == Some(seq!['>', '=']),
        spec_comparison_at(Tok::GreaterEqual) matches Some(op)
            && op.spec_apply_raw(x, y) == (if x >= y { 1u128 } else { 0u128 }),
        fixed_text(Tok::Less) == Some(seq!['<']),
        spec_comparison_at(Tok::Less) matches Some(op)
            && op.spec_apply_raw(x, y) == (if x < y { 1u128 } else { 0u128 }),
        fixed_text(Tok::Greater) == Some(seq!['>']),
        spec_comparison_at(Tok::Greater) matches Some(op)
            && op.spec_apply_raw(x, y) == (if x > y { 1u128 } else { 0u128 }),
        fixed_text(Tok::Equal) == Some(seq!['=', '=']),
        spec_comparison_at(Tok::Equal) matches Some(op)
            && op.spec_apply_raw(x, y) == (if x == y { 1u128 } else { 0u128 }),
        fixed_text(Tok::NotEqual) == Some(seq!['!', '=']),
        spec_comparison_at(Tok::NotEqual) matches Some(op)
            && op.spec_apply_raw(x, y) == (if x != y { 1u128 } else { 0u128 }),
        spec_comparison_at(Tok::LessEqual) == Some(BinOpCode::LessEqual),
        spec_comparison_at(Tok::GreaterEqual) == Some(BinOpCode::GreaterEqual),
        spec_comparison_at(Tok::Less) == Some(BinOpCode::Less),
        spec_comparison_at(Tok::Greater) == Some(BinOpCode::Greater),
        spec_comparison_at(Tok::Equal) == Some(BinOpCode::Equal),
        spec_comparison_at(Tok::NotEqual) == Some(BinOpCode::NotEqual),
{
    crate::ast::law_comparisons(x, y);
}

/// Each operator token of the other levels stands for the operator it is written as:
/// `+` adds, `-` subtracts, `*` multiplies, `/` divides, `&&` and `||` are the logical
/// operators, and `&`, `|`, `^`, `<<`, `>>` the bitwise ones.
pub proof fn law_operator_tokens(x: u128, y: u128)
    ensures
        spec_binop_at(4, Tok::Plus) matches Some(op) && op.spec_apply_raw(x, y) as int == if x + y < two_128() {
            x + y
        } else {
            x + y - two_128()
        },
        spec_binop_at(4, Tok::Minus) matches Some(op) && (op.spec_apply_raw(x, y) + y) % two_128() == x as int,
        spec_binop_at(3, Tok::Times) matches Some(op) && op.spec_apply_raw(x, y) as int == (x * y) % two_128(),
        spec_binop_at(3, Tok::Divide) matches Some(op) && (y != 0 ==> op.spec_apply_raw(x, y) * y <= x < (
        op.spec_apply_raw(x, y) + 1) * y),
        spec_binop_at(10, Tok::AndAnd) matches Some(op) && op.spec_apply_raw(x, y) == (if x != 0 && y != 0 {
            1u128
        } else {
            0u128
        }),
        spec_binop_at(11, Tok::OrOr) matches Some(op) && op.spec_apply_raw(x, y) == (if x != 0 || y != 0 {
            1u128
        } else {
            0u128
        }),
        spec_unop_at(Tok::Minus) matches Some(op) && (op.spec_apply_raw(x) + x) % two_128() == 0,
        spec_unop_at(Tok::Not) matches Some(op) && op.spec_apply_raw(x) == (if x == 0 { 1u128 } else { 0u128 }),
        spec_unop_at(Tok::Complement) matches Some(op) && op.spec_apply_raw(x) == !x,
        spec_unop_at(Tok::Plus) matches Some(op) && op.spec_apply_raw(x) == x,
        spec_binop_at(6, Tok::And) == Some(BinOpCode::And),
        spec_binop_at(8, Tok::Or) == Some(BinOpCode::Or),
        spec_binop_at(7, Tok::Xor) == Some(BinOpCode::Xor),
        spec_binop_at(5, Tok::LeftShift) == Some(BinOpCode::LeftShift),
        spec_binop_at(5, Tok::RightShift) == Some(BinOpCode::RightShift),
{
    crate::ast::law_comparisons(x, y);
    crate::ast::law_arithmetic(x, y);
    crate::ast::law_bitwise(x, y);
}

/// Operators bind as in C: `*` and `/` tighter than `+` and `-`, those tighter than
/// the shifts, then `&`, `^`, `|`, the comparisons and `in`, `&&`, and `||` loosest;
/// unary operators and bit selections tighter than all of them. A binary operator token
/// is read at its own level and at no other.
pub proof fn law_operator_precedence(t: Tok, n: nat)
    ensures
        spec_binop_at(n, t) is Some <==> (3 <= binop_level(t) && n == binop_level(t)),
        spec_binop_at(n, t) is Some ==> spec_comparison_at(t) is None,
        2 < binop_level(Tok::Times) && binop_level(Tok::Times) == binop_level(Tok::Divide),
        binop_level(Tok::Times) < binop_level(Tok::Plus) && binop_level(Tok::Plus) == binop_level(Tok::Minus),
        binop_level(Tok::Plus) < binop_level(Tok::LeftShift) && binop_level(Tok::LeftShift) == binop_level(
            Tok::RightShift,
        ),
        binop_level(Tok::LeftShift) < binop_level(Tok::And),
        binop_level(Tok::And) < binop_level(Tok::Xor),
        binop_level(Tok::Xor) < binop_level(Tok::Or),
        binop_level(Tok::Or) < 9 < binop_level(Tok::AndAnd),
        binop_level(Tok::AndAnd) < binop_level(Tok::OrOr) && binop_level(Tok::OrOr) <= 11,
{
}

} // verus!
