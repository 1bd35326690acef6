//! Finding the width of an expression and checking that its operands agree.
use vstd::prelude::*;
use crate::ast::{
    BinOpCode, BinOpKind, Expr, MuxOption, SpannedExpr, UnOpCode, WireValue, WireWidth,
    DISALLOW_MULTIPLE_MUX_DEFAULT, DISALLOW_UNREACHABLE_OPTIONS, REQUIRE_MUX_DEFAULT,
    STRICT_WIDTHS_BINARY, STRICT_WIDTHS_BOOLEAN,
};
use crate::errors::{Error, ExprFault};
use crate::eval::{find_close_names_in, lemma_items_well_formed, lemma_options_well_formed, spec_close_name, values_valid};
use crate::wires::{WireValues, WireWidths};

verus! {

/// What a scan of the options of a mux has found so far: the common width of
/// the values (if they agree), each value's width, whether an always-true
/// condition was seen, seen twice, or followed by another option.
pub struct MuxScan {
    pub common: Option<WireWidth>,
    pub widths: Seq<WireWidth>,
    pub seen_default: bool,
    pub seen_default_twice: bool,
    pub seen_unreachable: bool,
}

pub open spec fn mux_scan_start() -> MuxScan {
    MuxScan {
        common: Some(WireWidth::Unlimited),
        widths: Seq::empty(),
        seen_default: false,
        seen_default_twice: false,
        seen_unreachable: false,
    }
}

/// The width of an expression given the widths of wires and the values of
/// constants, or the first problem found with it.
pub open spec fn spec_width(
    e: SpannedExpr,
    w: Map<Seq<char>, WireWidth>,
    wkeys: Seq<Seq<char>>,
    c: WireValues,
    strict: bool,
) -> Result<WireWidth, ExprFault>
    decreases e, 0int,
{
    match *e.expr {
        Expr::Constant(v) => Ok(v.width),
        Expr::BinOp(op, l, r) => match spec_width(l, w, wkeys, c, strict) {
            Err(f) => Err(f),
            Ok(lw) => match op.spec_kind() {
                BinOpKind::BooleanCombine => if STRICT_WIDTHS_BOOLEAN && !lw.spec_possibly_boolean() {
                    Err(ExprFault::NonBooleanWidth(l))
                } else {
                    match spec_width(r, w, wkeys, c, strict) {
                        Err(f) => Err(f),
                        Ok(rw) => if STRICT_WIDTHS_BOOLEAN && !rw.spec_possibly_boolean() {
                            Err(ExprFault::NonBooleanWidth(r))
                        } else {
                            Ok(WireWidth::Bits(1))
                        },
                    }
                },
                _ => match spec_width(r, w, wkeys, c, strict) {
                    Err(f) => Err(f),
                    Ok(rw) => if op.spec_kind() == BinOpKind::EqualWidthWeak && !STRICT_WIDTHS_BINARY {
                        Ok(lw.spec_max(rw))
                    } else {
                        match lw.spec_combine(rw) {
                            None => Err(ExprFault::MismatchedExprWidths(l, lw, r, rw)),
                            Some(width) => if op.spec_kind() == BinOpKind::BooleanFromEqualWidth {
                                Ok(WireWidth::Bits(1))
                            } else {
                                Ok(width)
                            },
                        }
                    },
                },
            },
        },
        Expr::Mux(options) => match spec_mux_scan(options@, 0, w, wkeys, c, strict, mux_scan_start()) {
            Err(f) => Err(f),
            Ok(scan) => if strict && REQUIRE_MUX_DEFAULT && !scan.seen_default {
                Err(ExprFault::NoMuxDefaultOption(e))
            } else if strict && DISALLOW_MULTIPLE_MUX_DEFAULT && scan.seen_default_twice {
                Err(ExprFault::MultipleMuxDefaultOption(e))
            } else if strict && DISALLOW_UNREACHABLE_OPTIONS && scan.seen_unreachable {
                Err(ExprFault::UnreachableOptions(e))
            } else {
                match scan.common {
                    Some(width) => Ok(width),
                    None => Err(
                        ExprFault::MismatchedMuxWidths(
                            options@,
                            scan.widths,
                        ),
                    ),
                }
            },
        },
        Expr::UnOp(op, inner) => match spec_width(inner, w, wkeys, c, strict) {
            Err(f) => Err(f),
            Ok(iw) => if op == UnOpCode::Not {
                Ok(WireWidth::Bits(1))
            } else {
                Ok(iw)
            },
        },
        Expr::NamedWire(name) => if w.dom().contains(name@) {
            Ok(w[name@])
        } else {
            Err(
                ExprFault::UndeclaredWireRead {
                    name: name@,
                    expr: e,
                    close_name: spec_close_name(name@, wkeys),
                },
            )
        },
        Expr::BitSelect { from, low, high } => if low > high {
            Err(ExprFault::MisorderedBitIndexes(e))
        } else {
            match spec_width(from, w, wkeys, c, strict) {
                Err(f) => Err(f),
                Ok(WireWidth::Bits(inner)) => if high > inner {
                    Err(ExprFault::InvalidBitIndex(e, high))
                } else {
                    Ok(WireWidth::Bits((high - low) as u8))
                },
                Ok(WireWidth::Unlimited) => Ok(WireWidth::Bits((high - low) as u8)),
            }
        },
        Expr::Concat(l, r) => match spec_width(l, w, wkeys, c, strict) {
            Err(f) => Err(f),
            Ok(WireWidth::Unlimited) => Err(ExprFault::NoBitWidth(l)),
            Ok(WireWidth::Bits(lb)) => match spec_width(r, w, wkeys, c, strict) {
                Err(f) => Err(f),
                Ok(WireWidth::Unlimited) => Err(ExprFault::NoBitWidth(r)),
                Ok(WireWidth::Bits(rb)) => if lb + rb <= 128 {
                    Ok(WireWidth::Bits((lb + rb) as u8))
                } else {
                    Err(ExprFault::WireTooWide(e))
                },
            },
        },
        Expr::InSet(l, items) => match spec_width(l, w, wkeys, c, strict) {
            Err(f) => Err(f),
            Ok(lw) => match spec_set_scan(lw, items@, 0, w, wkeys, c, strict, Seq::empty()) {
                Err(f) => Err(f),
                Ok(mismatched) => if mismatched.len() > 0 {
                    Err(ExprFault::MismatchedSetWidths(l, lw, mismatched))
                } else {
                    Ok(WireWidth::Bits(1))
                },
            },
        },
        Expr::Error => Err(ExprFault::RuntimeMismatchedWidths),
    }
}

/// Scans the options of a mux from position `i` on, continuing from `acc`.
pub open spec fn spec_mux_scan(
    options: Seq<MuxOption>,
    i: int,
    w: Map<Seq<char>, WireWidth>,
    wkeys: Seq<Seq<char>>,
    c: WireValues,
    strict: bool,
    acc: MuxScan,
) -> Result<MuxScan, ExprFault>
    decreases options, options.len() - i,
{
    if i < 0 || i >= options.len() {
        Ok(acc)
    } else {
        match spec_width(options[i].condition, w, wkeys, c, strict) {
            Err(f) => Err(f),
            Ok(_) => {
                let always = options[i].condition.spec_always_true(c);
                match spec_width(options[i].value, w, wkeys, c, strict) {
                    Err(f) => Err(f),
                    Ok(vw) => spec_mux_scan(
                        options,
                        i + 1,
                        w,
                        wkeys,
                        c,
                        strict,
                        MuxScan {
                            common: match acc.common {
                                Some(cw) => cw.spec_combine(vw),
                                None => None,
                            },
                            widths: acc.widths.push(vw),
                            seen_default: acc.seen_default || always,
                            seen_default_twice: acc.seen_default_twice || (always && acc.seen_default),
                            seen_unreachable: acc.seen_unreachable || acc.seen_default,
                        },
                    ),
                }
            },
        }
    }
}

/// Scans the items of a set from position `i` on, collecting those whose width
/// disagrees with the left side.
pub open spec fn spec_set_scan(
    lw: WireWidth,
    items: Seq<SpannedExpr>,
    i: int,
    w: Map<Seq<char>, WireWidth>,
    wkeys: Seq<Seq<char>>,
    c: WireValues,
    strict: bool,
    acc: Seq<(SpannedExpr, WireWidth)>,
) -> Result<Seq<(SpannedExpr, WireWidth)>, ExprFault>
    decreases items, items.len() - i,
{
    if i < 0 || i >= items.len() {
        Ok(acc)
    } else {
        match spec_width(items[i], w, wkeys, c, strict) {
            Err(f) => Err(f),
            Ok(iw) => spec_set_scan(
                lw,
                items,
                i + 1,
                w,
                wkeys,
                c,
                strict,
                if lw.spec_combine(iw) is None {
                    acc.push((items[i], iw))
                } else {
                    acc
                },
            ),
        }
    }
}

impl WireWidth {
    pub open spec fn spec_possibly_boolean(self) -> bool {
        self == WireWidth::Unlimited || self == WireWidth::Bits(1)
    }

    /// The common width of two expressions' widths, or the error that they disagree.
    pub fn combine_exprs(self, other: WireWidth, left_expr: &SpannedExpr, right_expr: &SpannedExpr) -> (r: Result<
        WireWidth,
        Error,
    >)
        ensures
            match self.spec_combine(other) {
                Some(w) => r == Ok::<WireWidth, Error>(w),
                None => r matches Err(e) && e.reports(
                    ExprFault::MismatchedExprWidths(*left_expr, self, *right_expr, other),
                ),
            },
    {
        match self.combine(other) {
            Some(width) => Ok(width),
            None => Err(Error::MismatchedExprWidths(left_expr.copy(), self, right_expr.copy(), other)),
        }
    }

    /// The common width of an expression's width and a wire's, or the error that they disagree.
    pub fn combine_expr_and_wire(self, other: WireWidth, wire: &str, right_expr: &SpannedExpr) -> (r: Result<
        WireWidth,
        Error,
    >)
        ensures
            match self.spec_combine(other) {
                Some(w) => r == Ok::<WireWidth, Error>(w),
                None => r matches Err(Error::MismatchedWireWidths(name, w1, e, w2)) && name@ == wire@
                    && w1 == self && e.same_as(*right_expr) && w2 == other,
            },
    {
        match self.combine(other) {
            Some(width) => Ok(width),
            None => Err(Error::MismatchedWireWidths(String::from_str(wire), self, right_expr.copy(), other)),
        }
    }
}

/// The width that checking reports matches the specification.
pub open spec fn width_result_matches(r: Result<WireWidth, Error>, s: Result<WireWidth, ExprFault>) -> bool {
    match (r, s) {
        (Ok(v), Ok(u)) => v == u,
        (Err(e), Err(f)) => e.reports(f),
        _ => false,
    }
}

impl SpannedExpr {
    /// The width of the expression, checking that the widths of its operands agree,
    /// and that each mux has one option whose condition is always true, as its last.
    pub fn get_width_and_check(&self, widths: &WireWidths, constants: &WireValues) -> (r: Result<
        WireWidth,
        Error,
    >)
        requires
            self.well_formed(),
            values_valid(*constants),
        ensures
            width_result_matches(r, spec_width(*self, widths@, widths.keys(), *constants, true)),
    {
        self.get_width_and_check_with(widths, constants, true)
    }

    /// The width of the expression, checking that the widths of its operands agree;
    /// when `strict`, also that each mux has one option whose condition is always
    /// true, as its last.
    pub fn get_width_and_check_with(&self, widths: &WireWidths, constants: &WireValues, strict: bool) -> (r: Result<
        WireWidth,
        Error,
    >)
        requires
            self.well_formed(),
            values_valid(*constants),
        ensures
            width_result_matches(r, spec_width(*self, widths@, widths.keys(), *constants, strict)),
        decreases self, 1int,
    {
        match &*self.expr {
            Expr::Constant(value) => Ok(value.width),
            Expr::BinOp(_, _, _) => self.binop_width(widths, constants, strict),
            Expr::Mux(_) => self.mux_width(widths, constants, strict),
            Expr::UnOp(UnOpCode::Not, covered) => {
                covered.get_width_and_check_with(widths, constants, strict)?;
                Ok(WireWidth::Bits(1))
            },
            Expr::UnOp(_, covered) => covered.get_width_and_check_with(widths, constants, strict),
            Expr::NamedWire(name) => match widths.get(name.as_str()) {
                Some(width) => Ok(*width),
                None => Err(
                    Error::UndeclaredWireRead {
                        name: name.clone(),
                        expr: self.copy(),
                        close_name: find_close_names_in(name.as_str(), widths.names()),
                    },
                ),
            },
            Expr::BitSelect { from, low, high } => {
                if *low > *high {
                    return Err(Error::MisorderedBitIndexes(self.copy()));
                }
                match from.get_width_and_check_with(widths, constants, strict)? {
                    WireWidth::Bits(inner_width) => {
                        if *high > inner_width {
                            return Err(Error::InvalidBitIndex(self.copy(), *high));
                        }
                    },
                    WireWidth::Unlimited => {},
                }
                Ok(WireWidth::Bits(*high - *low))
            },
            Expr::Concat(left, right) => {
                if let WireWidth::Bits(left_width) = left.get_width_and_check_with(widths, constants, strict)? {
                    if let WireWidth::Bits(right_width) = right.get_width_and_check_with(widths, constants, strict)? {
                        if left_width as u16 + right_width as u16 <= 128 {
                            Ok(WireWidth::Bits(left_width + right_width))
                        } else {
                            Err(Error::WireTooWide(self.copy()))
                        }
                    } else {
                        Err(Error::NoBitWidth(right.copy()))
                    }
                } else {
                    Err(Error::NoBitWidth(left.copy()))
                }
            },
            Expr::InSet(_, _) => self.set_width(widths, constants, strict),
            Expr::Error => Err(Error::RuntimeMismatchedWidths()),
        }
    }

    fn mux_width(&self, widths: &WireWidths, constants: &WireValues, strict: bool) -> (r: Result<WireWidth, Error>)
        requires
            self.well_formed(),
            *self.expr is Mux,
            values_valid(*constants),
        ensures
            width_result_matches(r, spec_width(*self, widths@, widths.keys(), *constants, strict)),
        decreases self, 0int,
    {
        if let Expr::Mux(options) = &*self.expr {
            proof {
                lemma_options_well_formed(options@, 0);
            }
            let scan = mux_scan(options, widths, constants, strict)?;
            if strict && REQUIRE_MUX_DEFAULT && !scan.seen_default {
                return Err(Error::NoMuxDefaultOption(self.copy()));
            }
            if strict && DISALLOW_MULTIPLE_MUX_DEFAULT && scan.seen_default_twice {
                return Err(Error::MultipleMuxDefaultOption(self.copy()));
            }
            if strict && DISALLOW_UNREACHABLE_OPTIONS && scan.seen_unreachable {
                return Err(Error::UnreachableOptions(self.copy()));
            }
            match scan.common {
                Some(width) => Ok(width),
                None => {
                    let copies = crate::ast::copy_options(options);
                    let e = Error::MismatchedMuxWidths(copies, scan.widths);
                    proof {
                        assert(e.reports(ExprFault::MismatchedMuxWidths(options@, scan@.widths)));
                    }
                    Err(e)
                },
            }
        } else {
            Err(Error::RuntimeMismatchedWidths())
        }
    }

    fn set_width(&self, widths: &WireWidths, constants: &WireValues, strict: bool) -> (r: Result<WireWidth, Error>)
        requires
            self.well_formed(),
            *self.expr is InSet,
            values_valid(*constants),
        ensures
            width_result_matches(r, spec_width(*self, widths@, widths.keys(), *constants, strict)),
        decreases self, 0int,
    {
        if let Expr::InSet(left, lst) = &*self.expr {
            let left_width = left.get_width_and_check_with(widths, constants, strict)?;
            proof {
                lemma_items_well_formed(lst@, 0);
            }
            let errors = set_scan(left, left_width, lst, widths, constants, strict)?;
            if errors.len() > 0 {
                Err(Error::MultipleErrors(errors))
            } else {
                Ok(WireWidth::Bits(1))
            }
        } else {
            Err(Error::RuntimeMismatchedWidths())
        }
    }

    fn binop_width(&self, widths: &WireWidths, constants: &WireValues, strict: bool) -> (r: Result<WireWidth, Error>)
        requires
            self.well_formed(),
            *self.expr is BinOp,
            values_valid(*constants),
        ensures
            width_result_matches(r, spec_width(*self, widths@, widths.keys(), *constants, strict)),
        decreases self, 0int,
    {
        if let Expr::BinOp(opcode, left, right) = &*self.expr {
            let lw = left.get_width_and_check_with(widths, constants, strict)?;
            match opcode.kind() {
                BinOpKind::BooleanCombine => {
                    if STRICT_WIDTHS_BOOLEAN && !lw.possibly_boolean() {
                        return Err(Error::NonBooleanWidth(left.copy()));
                    }
                    let rw = right.get_width_and_check_with(widths, constants, strict)?;
                    if STRICT_WIDTHS_BOOLEAN && !rw.possibly_boolean() {
                        return Err(Error::NonBooleanWidth(right.copy()));
                    }
                    Ok(WireWidth::Bits(1))
                },
                BinOpKind::EqualWidthWeak if !STRICT_WIDTHS_BINARY => {
                    let rw = right.get_width_and_check_with(widths, constants, strict)?;
                    Ok(lw.max(rw))
                },
                kind => {
                    let rw = right.get_width_and_check_with(widths, constants, strict)?;
                    let width = lw.combine_exprs(rw, left, right)?;
                    if kind == BinOpKind::BooleanFromEqualWidth {
                        Ok(WireWidth::Bits(1))
                    } else {
                        Ok(width)
                    }
                },
            }
        } else {
            Err(Error::RuntimeMismatchedWidths())
        }
    }
}

/// The result of scanning the options of a mux.
pub struct MuxScanResult {
    pub common: Option<WireWidth>,
    pub widths: Vec<WireWidth>,
    pub seen_default: bool,
    pub seen_default_twice: bool,
    pub seen_unreachable: bool,
}

impl MuxScanResult {
    pub open spec fn view(self) -> MuxScan {
        MuxScan {
            common: self.common,
            widths: self.widths@,
            seen_default: self.seen_default,
            seen_default_twice: self.seen_default_twice,
            seen_unreachable: self.seen_unreachable,
        }
    }
}

fn mux_scan(options: &Vec<MuxOption>, widths: &WireWidths, constants: &WireValues, strict: bool) -> (r: Result<
    MuxScanResult,
    Error,
>)
    requires
        forall|j: int|
            #![trigger options@[j]]
            0 <= j < options@.len() ==> options@[j].condition.well_formed() && options@[j].value.well_formed(),
        values_valid(*constants),
    ensures
        match (r, spec_mux_scan(options@, 0, widths@, widths.keys(), *constants, strict, mux_scan_start())) {
            (Ok(v), Ok(u)) => v@ == u,
            (Err(e), Err(f)) => e.reports(f),
            _ => false,
        },
    decreases options@, 2int,
{
    let mut acc = MuxScanResult {
        common: Some(WireWidth::Unlimited),
        widths: Vec::new(),
        seen_default: false,
        seen_default_twice: false,
        seen_unreachable: false,
    };
    assert(acc@ == mux_scan_start());
    let mut i: usize = 0;
    while i < options.len()
        invariant
            i <= options@.len(),
            forall|j: int|
                #![trigger options@[j]]
                0 <= j < options@.len() ==> options@[j].condition.well_formed()
                    && options@[j].value.well_formed(),
            values_valid(*constants),
            spec_mux_scan(options@, 0, widths@, widths.keys(), *constants, strict, mux_scan_start())
                == spec_mux_scan(options@, i as int, widths@, widths.keys(), *constants, strict, acc@),
        decreases options@.len() - i,
    {
        let option = &options[i];
        option.condition.get_width_and_check_with(widths, constants, strict)?;
        let always = option.condition.always_true(constants);
        let option_width = option.value.get_width_and_check_with(widths, constants, strict)?;
        let ghost before = acc@;
        if acc.seen_default {
            acc.seen_unreachable = true;
        }
        if always {
            if acc.seen_default {
                acc.seen_default_twice = true;
            }
            acc.seen_default = true;
        }
        acc.widths.push(option_width);
        acc.common = match acc.common {
            Some(cw) => cw.combine(option_width),
            None => None,
        };
        assert(acc@.widths == before.widths.push(option_width));
        i = i + 1;
    }
    Ok(acc)
}

fn set_scan(
    left: &SpannedExpr,
    left_width: WireWidth,
    items: &Vec<SpannedExpr>,
    widths: &WireWidths,
    constants: &WireValues,
    strict: bool,
) -> (r: Result<Vec<Error>, Error>)
    requires
        forall|j: int| #![trigger items@[j]] 0 <= j < items@.len() ==> items@[j].well_formed(),
        values_valid(*constants),
    ensures
        match (r, spec_set_scan(left_width, items@, 0, widths@, widths.keys(), *constants, strict, Seq::empty())) {
            (Ok(v), Ok(u)) => v@.len() == u.len() && forall|i: int|
                #![trigger v@[i]]
                0 <= i < u.len() ==> v@[i].reports_mismatched_widths(*left, left_width, u[i].0, u[i].1),
            (Err(e), Err(f)) => e.reports(f),
            _ => false,
        },
    decreases items@, 2int,
{
    let mut errors: Vec<Error> = Vec::new();
    let ghost mut acc: Seq<(SpannedExpr, WireWidth)> = Seq::empty();
    let mut i: usize = 0;
    while i < items.len()
        invariant
            i <= items@.len(),
            forall|j: int| #![trigger items@[j]] 0 <= j < items@.len() ==> items@[j].well_formed(),
            values_valid(*constants),
            spec_set_scan(left_width, items@, 0, widths@, widths.keys(), *constants, strict, Seq::empty())
                == spec_set_scan(left_width, items@, i as int, widths@, widths.keys(), *constants, strict, acc),
            errors@.len() == acc.len(),
            forall|k: int|
                #![trigger errors@[k]]
                0 <= k < acc.len() ==> errors@[k].reports_mismatched_widths(*left, left_width, acc[k].0, acc[k].1),
        decreases items@.len() - i,
    {
        let item = &items[i];
        let item_width = item.get_width_and_check_with(widths, constants, strict)?;
        match left_width.combine(item_width) {
            Some(_) => {},
            None => {
                errors.push(Error::MismatchedExprWidths(left.copy(), left_width, item.copy(), item_width));
                proof {
                    acc = acc.push((*item, item_width));
                }
            },
        }
        i = i + 1;
    }
    Ok(errors)
}


/// Widths of expressions: two bit widths combine only when equal; `+`, `-`, `*`, `/` of
/// operands of bit widths `a` and `b` are as wide as the wider operand; a comparison is
/// one bit; a concatenation is as wide as its two parts together; a bit selection
/// `[low..high]` is `high - low` bits.
pub proof fn law_expression_widths(
    e: SpannedExpr,
    w: Map<Seq<char>, WireWidth>,
    wkeys: Seq<Seq<char>>,
    c: WireValues,
    strict: bool,
    a: u8,
    b: u8,
)
    ensures
        WireWidth::Bits(a).spec_combine(WireWidth::Bits(b)) == (if a == b {
            Some(WireWidth::Bits(a))
        } else {
            None
        }),
        (*e.expr matches Expr::BinOp(op, l, r) && spec_width(l, w, wkeys, c, strict) == Ok::<WireWidth, ExprFault>(
            WireWidth::Bits(a),
        ) && spec_width(r, w, wkeys, c, strict) == Ok::<WireWidth, ExprFault>(WireWidth::Bits(b)) && (op
            == BinOpCode::Add || op == BinOpCode::Sub || op == BinOpCode::Mul || op == BinOpCode::Div)) ==> spec_width(
            e,
            w,
            wkeys,
            c,
            strict,
        ) == Ok::<WireWidth, ExprFault>(WireWidth::Bits(if a >= b { a } else { b })),
        (*e.expr matches Expr::BinOp(op, l, r) && spec_width(l, w, wkeys, c, strict) == Ok::<WireWidth, ExprFault>(
            WireWidth::Bits(a),
        ) && spec_width(r, w, wkeys, c, strict) == Ok::<WireWidth, ExprFault>(WireWidth::Bits(a)) && (op
            == BinOpCode::Equal || op == BinOpCode::NotEqual || op == BinOpCode::Less || op == BinOpCode::LessEqual
            || op == BinOpCode::Greater || op == BinOpCode::GreaterEqual)) ==> spec_width(e, w, wkeys, c, strict)
            == Ok::<WireWidth, ExprFault>(WireWidth::Bits(1)),
        (*e.expr matches Expr::Concat(l, r) && spec_width(l, w, wkeys, c, strict) == Ok::<WireWidth, ExprFault>(
            WireWidth::Bits(a),
        ) && spec_width(r, w, wkeys, c, strict) == Ok::<WireWidth, ExprFault>(WireWidth::Bits(b)) && a + b <= 128)
            ==> spec_width(e, w, wkeys, c, strict) == Ok::<WireWidth, ExprFault>(WireWidth::Bits((a + b) as u8)),
        *e.expr matches Expr::BitSelect { from, low, high } ==> (low <= high && high - low <= 128 && spec_width(
            from,
            w,
            wkeys,
            c,
            strict,
        ) == Ok::<WireWidth, ExprFault>(WireWidth::Unlimited) ==> spec_width(e, w, wkeys, c, strict) == Ok::<
            WireWidth,
            ExprFault,
        >(WireWidth::Bits((high - low) as u8))),
{
}

} // verus!
