//! Evaluating expressions against the values of wires.
use vstd::prelude::*;
use crate::ast::{BinOpFault, BinOpCode, Expr, MuxOption, SpannedExpr, WireValue, WireWidth, options_well_formed, items_well_formed};
use crate::errors::{Error, ExprFault};
use crate::text::chars_of;
use crate::wires::{NameMap, WireValues};

verus! {

/// The lowercase form of an ASCII uppercase letter; other characters are kept.
pub open spec fn ascii_lower(c: char) -> char {
    if 'A' <= c && c <= 'Z' {
        ((c as u32) + 32) as char
    } else {
        c
    }
}

/// Two names that differ at most in the case of ASCII letters.
pub open spec fn spec_eq_ignore_ascii_case(a: Seq<char>, b: Seq<char>) -> bool {
    &&& a.len() == b.len()
    &&& forall|i: int| 0 <= i < a.len() ==> #[trigger] ascii_lower(a[i]) == ascii_lower(b[i])
}

pub fn to_ascii_lower(c: char) -> (r: char)
    ensures
        r == ascii_lower(c),
{
    if 'A' <= c && c <= 'Z' {
        let b: u8 = c as u8;
        assert(b as u32 == c as u32);
        ((b + 32) as u8) as char
    } else {
        c
    }
}

pub fn eq_ignore_ascii_case(a: &str, b: &str) -> (r: bool)
    ensures
        r == spec_eq_ignore_ascii_case(a@, b@),
{
    let ac = chars_of(a);
    let bc = chars_of(b);
    if ac.len() != bc.len() {
        return false;
    }
    let mut i: usize = 0;
    while i < ac.len()
        invariant
            ac@ == a@,
            bc@ == b@,
            ac@.len() == bc@.len(),
            i <= ac@.len(),
            forall|j: int| 0 <= j < i ==> #[trigger] ascii_lower(a@[j]) == ascii_lower(b@[j]),
        decreases ac@.len() - i,
    {
        if to_ascii_lower(ac[i]) != to_ascii_lower(bc[i]) {
            return false;
        }
        i = i + 1;
    }
    true
}

/// The last of the names that differs from the target at most in the case of ASCII letters.
pub open spec fn spec_close_name(target: Seq<char>, names: Seq<Seq<char>>) -> Option<Seq<char>>
    decreases names.len(),
{
    if names.len() == 0 {
        None
    } else if spec_eq_ignore_ascii_case(target, names.last()) {
        Some(names.last())
    } else {
        spec_close_name(target, names.drop_last())
    }
}

/// Suggests a name for one that was not found: the last of the possible names that
/// differs from it at most in the case of ASCII letters.
pub fn find_close_names_in(target_name: &str, possible_names: &Vec<String>) -> (r: Option<String>)
    ensures
        crate::errors::opt_view(r) == spec_close_name(
            target_name@,
            possible_names@.map_values(|s: String| s@),
        ),
{
    let ghost names = possible_names@.map_values(|s: String| s@);
    let mut result: Option<String> = None;
    let mut i: usize = 0;
    while i < possible_names.len()
        invariant
            i <= possible_names@.len(),
            names == possible_names@.map_values(|s: String| s@),
            crate::errors::opt_view(result) == spec_close_name(target_name@, names.subrange(0, i as int)),
        decreases possible_names@.len() - i,
    {
        let ghost prefix = names.subrange(0, i as int + 1);
        assert(prefix.drop_last() == names.subrange(0, i as int));
        assert(prefix.last() == possible_names@[i as int]@);
        if eq_ignore_ascii_case(target_name, possible_names[i].as_str()) {
            result = Some(possible_names[i].clone());
        }
        i = i + 1;
    }
    assert(names.subrange(0, possible_names@.len() as int) == names);
    result
}

/// Every value in the map is a valid value.
pub open spec fn values_valid(wires: WireValues) -> bool {
    map_values_valid(wires@)
}

pub open spec fn map_values_valid(m: Map<Seq<char>, WireValue>) -> bool {
    forall|k: Seq<char>| #[trigger] m.dom().contains(k) ==> m[k].valid()
}

pub proof fn lemma_options_well_formed(options: Seq<MuxOption>, i: int)
    requires
        0 <= i,
        options_well_formed(options, i),
    ensures
        forall|j: int|
            #![trigger options[j]]
            i <= j < options.len() ==> options[j].condition.well_formed() && options[j].value.well_formed(),
    decreases options.len() - i,
{
    if i < options.len() {
        lemma_options_well_formed(options, i + 1);
    }
}

pub proof fn lemma_items_well_formed(items: Seq<SpannedExpr>, i: int)
    requires
        0 <= i,
        items_well_formed(items, i),
    ensures
        forall|j: int| #![trigger items[j]] i <= j < items.len() ==> items[j].well_formed(),
    decreases items.len() - i,
{
    if i < items.len() {
        lemma_items_well_formed(items, i + 1);
    }
}

/// The value of an expression given the values of the wires it reads, or the
/// fault that stops its evaluation.
pub open spec fn spec_eval(e: SpannedExpr, m: Map<Seq<char>, WireValue>, keys: Seq<Seq<char>>) -> Result<WireValue, ExprFault>
    decreases e, 0int,
{
    match *e.expr {
        Expr::Constant(v) => Ok(v),
        Expr::BinOp(op, l, r) => match spec_eval(l, m, keys) {
            Err(f) => Err(f),
            Ok(lv) => match spec_eval(r, m, keys) {
                Err(f) => Err(f),
                Ok(rv) => match op.spec_result_width(lv.width, rv.width) {
                    None => Err(ExprFault::RuntimeMismatchedWidths),
                    Some(width) => if op == BinOpCode::Div && rv.bits == 0 {
                        Err(ExprFault::DivisionByZero(e))
                    } else {
                        Ok(
                            WireValue {
                                bits: op.spec_apply_raw(lv.bits, rv.bits),
                                width: WireWidth::Unlimited,
                            }.spec_as_width(width),
                        )
                    },
                },
            },
        },
        Expr::UnOp(op, inner) => match spec_eval(inner, m, keys) {
            Err(f) => Err(f),
            Ok(v) => Ok(op.spec_apply(v)),
        },
        Expr::Mux(options) => spec_eval_mux(options@, 0, m, keys),
        Expr::NamedWire(name) => if m.dom().contains(name@) {
            Ok(m[name@])
        } else {
            Err(
                ExprFault::UndeclaredWireRead {
                    name: name@,
                    expr: e,
                    close_name: spec_close_name(name@, keys),
                },
            )
        },
        Expr::BitSelect { from, low, high } => match spec_eval(from, m, keys) {
            Err(f) => Err(f),
            Ok(v) => if low > high {
                Err(ExprFault::MisorderedBitIndexes(e))
            } else if high - low > 128 {
                Err(ExprFault::InvalidBitIndex(e, high))
            } else {
                Ok(
                    WireValue {
                        bits: if low >= 128 {
                            0
                        } else {
                            v.bits >> low
                        },
                        width: WireWidth::Unlimited,
                    }.spec_as_width(WireWidth::Bits((high - low) as u8)),
                )
            },
        },
        Expr::Concat(l, r) => match spec_eval(l, m, keys) {
            Err(f) => Err(f),
            Ok(lv) => match spec_eval(r, m, keys) {
                Err(f) => Err(f),
                Ok(rv) => match rv.width {
                    WireWidth::Bits(rb) => match lv.width {
                        WireWidth::Bits(lb) => if lb + rb > 128 {
                            Err(ExprFault::WireTooWide(e))
                        } else {
                            Ok(
                                WireValue {
                                    bits: (if rb >= 128 {
                                        0
                                    } else {
                                        lv.bits << rb
                                    }) | rv.bits,
                                    width: WireWidth::Unlimited,
                                }.spec_as_width(WireWidth::Bits((lb + rb) as u8)),
                            )
                        },
                        WireWidth::Unlimited => Err(ExprFault::NoBitWidth(l)),
                    },
                    WireWidth::Unlimited => Err(ExprFault::NoBitWidth(r)),
                },
            },
        },
        Expr::InSet(l, items) => match spec_eval(l, m, keys) {
            Err(f) => Err(f),
            Ok(lv) => spec_eval_inset(lv, items@, 0, m, keys),
        },
        Expr::Error => Err(ExprFault::RuntimeMismatchedWidths),
    }
}

/// A mux takes the value of the first option, from position `i` on, whose condition
/// is true, and 0 when there is none.
pub open spec fn spec_eval_mux(options: Seq<MuxOption>, i: int, m: Map<Seq<char>, WireValue>, keys: Seq<Seq<char>>) -> Result<WireValue, ExprFault>
    decreases options, options.len() - i,
{
    if i < 0 || i >= options.len() {
        Ok(WireValue { bits: 0, width: WireWidth::Unlimited })
    } else {
        match spec_eval(options[i].condition, m, keys) {
            Err(f) => Err(f),
            Ok(c) => if c.bits > 0 {
                spec_eval(options[i].value, m, keys)
            } else {
                spec_eval_mux(options, i + 1, m, keys)
            },
        }
    }
}

/// A set membership test is true when one of the items, from position `i` on, has
/// the same bits as the left side.
pub open spec fn spec_eval_inset(lv: WireValue, items: Seq<SpannedExpr>, i: int, m: Map<Seq<char>, WireValue>, keys: Seq<Seq<char>>) -> Result<
    WireValue,
    ExprFault,
>
    decreases items, items.len() - i,
{
    if i < 0 || i >= items.len() {
        Ok(WireValue { bits: 0, width: WireWidth::Bits(1) })
    } else {
        match spec_eval(items[i], m, keys) {
            Err(f) => Err(f),
            Ok(rv) => if lv.bits == rv.bits {
                Ok(WireValue { bits: 1, width: WireWidth::Bits(1) })
            } else {
                spec_eval_inset(lv, items, i + 1, m, keys)
            },
        }
    }
}

/// An expression that evaluates under some wire values evaluates to the same under any
/// values that include them: evaluation reads only the wires it needs.
pub proof fn lemma_eval_extends(
    e: SpannedExpr,
    m1: Map<Seq<char>, WireValue>,
    m2: Map<Seq<char>, WireValue>,
    k1: Seq<Seq<char>>,
    k2: Seq<Seq<char>>,
)
    requires
        m1.submap_of(m2),
        spec_eval(e, m1, k1) is Ok,
    ensures
        spec_eval(e, m2, k2) == spec_eval(e, m1, k1),
    decreases e, 0int,
{
    match *e.expr {
        Expr::BinOp(_, l, r) => {
            lemma_eval_extends(l, m1, m2, k1, k2);
            lemma_eval_extends(r, m1, m2, k1, k2);
        },
        Expr::UnOp(_, inner) => {
            lemma_eval_extends(inner, m1, m2, k1, k2);
        },
        Expr::Mux(options) => {
            lemma_eval_mux_extends(options@, 0, m1, m2, k1, k2);
        },
        Expr::NamedWire(name) => {
            assert(m1.dom().contains(name@));
            assert(m2[name@] == m1[name@]);
        },
        Expr::BitSelect { from, .. } => {
            lemma_eval_extends(from, m1, m2, k1, k2);
        },
        Expr::Concat(l, r) => {
            lemma_eval_extends(l, m1, m2, k1, k2);
            lemma_eval_extends(r, m1, m2, k1, k2);
        },
        Expr::InSet(l, items) => {
            lemma_eval_extends(l, m1, m2, k1, k2);
            lemma_eval_inset_extends(spec_eval(l, m1, k1)->Ok_0, items@, 0, m1, m2, k1, k2);
        },
        _ => {},
    }
}

proof fn lemma_eval_mux_extends(
    options: Seq<MuxOption>,
    i: int,
    m1: Map<Seq<char>, WireValue>,
    m2: Map<Seq<char>, WireValue>,
    k1: Seq<Seq<char>>,
    k2: Seq<Seq<char>>,
)
    requires
        m1.submap_of(m2),
        spec_eval_mux(options, i, m1, k1) is Ok,
    ensures
        spec_eval_mux(options, i, m2, k2) == spec_eval_mux(options, i, m1, k1),
    decreases options, options.len() - i,
{
    if 0 <= i < options.len() {
        lemma_eval_extends(options[i].condition, m1, m2, k1, k2);
        let c = spec_eval(options[i].condition, m1, k1)->Ok_0;
        if c.bits > 0 {
            lemma_eval_extends(options[i].value, m1, m2, k1, k2);
        } else {
            lemma_eval_mux_extends(options, i + 1, m1, m2, k1, k2);
        }
    }
}

proof fn lemma_eval_inset_extends(
    lv: WireValue,
    items: Seq<SpannedExpr>,
    i: int,
    m1: Map<Seq<char>, WireValue>,
    m2: Map<Seq<char>, WireValue>,
    k1: Seq<Seq<char>>,
    k2: Seq<Seq<char>>,
)
    requires
        m1.submap_of(m2),
        spec_eval_inset(lv, items, i, m1, k1) is Ok,
    ensures
        spec_eval_inset(lv, items, i, m2, k2) == spec_eval_inset(lv, items, i, m1, k1),
    decreases items, items.len() - i,
{
    if 0 <= i < items.len() {
        lemma_eval_extends(items[i], m1, m2, k1, k2);
        let rv = spec_eval(items[i], m1, k1)->Ok_0;
        if lv.bits != rv.bits {
            lemma_eval_inset_extends(lv, items, i + 1, m1, m2, k1, k2);
        }
    }
}

/// A mux takes the value of its first option whose condition is true (not zero): when
/// the conditions before option `i` evaluate to zero and option `i`'s to something
/// else, the mux evaluates as option `i`'s value.
pub proof fn law_mux_first_true(options: Seq<MuxOption>, i: int, m: Map<Seq<char>, WireValue>, keys: Seq<Seq<char>>)
    requires
        0 <= i < options.len(),
        forall|j: int|
            0 <= j < i ==> (#[trigger] spec_eval(options[j].condition, m, keys) matches Ok(c) && c.bits == 0),
        spec_eval(options[i].condition, m, keys) matches Ok(c) && c.bits != 0,
    ensures
        spec_eval_mux(options, 0, m, keys) == spec_eval(options[i].value, m, keys),
{
    lemma_mux_from(options, 0, i, m, keys);
}

proof fn lemma_mux_from(options: Seq<MuxOption>, k: int, i: int, m: Map<Seq<char>, WireValue>, keys: Seq<Seq<char>>)
    requires
        0 <= k <= i < options.len(),
        forall|j: int|
            0 <= j < i ==> (#[trigger] spec_eval(options[j].condition, m, keys) matches Ok(c) && c.bits == 0),
        spec_eval(options[i].condition, m, keys) matches Ok(c) && c.bits != 0,
    ensures
        spec_eval_mux(options, k, m, keys) == spec_eval(options[i].value, m, keys),
    decreases i - k,
{
    if k < i {
        assert(spec_eval(options[k].condition, m, keys) matches Ok(c) && c.bits == 0);
        lemma_mux_from(options, k + 1, i, m, keys);
    }
}

/// An in-set test is true exactly when one of the items has the bits of the left side:
/// when the items before `i` evaluate to other bits and item `i` to the same bits, the
/// test gives 1 (one bit wide).
pub proof fn law_inset_found(lv: WireValue, items: Seq<SpannedExpr>, i: int, m: Map<Seq<char>, WireValue>, keys: Seq<Seq<char>>)
    requires
        0 <= i < items.len(),
        forall|j: int| 0 <= j < i ==> (#[trigger] spec_eval(items[j], m, keys) matches Ok(v) && v.bits != lv.bits),
        spec_eval(items[i], m, keys) matches Ok(v) && v.bits == lv.bits,
    ensures
        spec_eval_inset(lv, items, 0, m, keys) == Ok::<WireValue, ExprFault>(WireValue { bits: 1, width: WireWidth::Bits(1) }),
{
    lemma_inset_from(lv, items, 0, i, m, keys);
}

proof fn lemma_inset_from(lv: WireValue, items: Seq<SpannedExpr>, k: int, i: int, m: Map<Seq<char>, WireValue>, keys: Seq<Seq<char>>)
    requires
        0 <= k <= i < items.len(),
        forall|j: int| 0 <= j < i ==> (#[trigger] spec_eval(items[j], m, keys) matches Ok(v) && v.bits != lv.bits),
        spec_eval(items[i], m, keys) matches Ok(v) && v.bits == lv.bits,
    ensures
        spec_eval_inset(lv, items, k, m, keys) == Ok::<WireValue, ExprFault>(WireValue { bits: 1, width: WireWidth::Bits(1) }),
    decreases i - k,
{
    if k < i {
        assert(spec_eval(items[k], m, keys) matches Ok(v) && v.bits != lv.bits);
        lemma_inset_from(lv, items, k + 1, i, m, keys);
    }
}

/// When every item evaluates to bits other than the left side's, the in-set test gives
/// 0 (one bit wide).
pub proof fn law_inset_absent(lv: WireValue, items: Seq<SpannedExpr>, k: int, m: Map<Seq<char>, WireValue>, keys: Seq<Seq<char>>)
    requires
        0 <= k <= items.len(),
        forall|j: int| k <= j < items.len() ==> (#[trigger] spec_eval(items[j], m, keys) matches Ok(v) && v.bits != lv.bits),
    ensures
        spec_eval_inset(lv, items, k, m, keys) == Ok::<WireValue, ExprFault>(WireValue { bits: 0, width: WireWidth::Bits(1) }),
    decreases items.len() - k,
{
    if k < items.len() {
        assert(spec_eval(items[k], m, keys) matches Ok(v) && v.bits != lv.bits);
        law_inset_absent(lv, items, k + 1, m, keys);
    }
}

/// The raw bits of a concatenation: the right part's `t` bits at the bottom, the left
/// part's `s` bits above them.
proof fn lemma_concat_bits(a: u128, b: u128, s: u128, t: u128)
    requires
        1 <= s,
        1 <= t,
        s + t <= 128,
        a & (u128::MAX >> ((128 - s) as u128)) == a,
        b & (u128::MAX >> ((128 - t) as u128)) == b,
    ensures
        (((a << t) | b) & (u128::MAX >> ((128 - (s + t)) as u128))) >> t == a,
        (((a << t) | b) & (u128::MAX >> ((128 - (s + t)) as u128))) & (u128::MAX >> ((128 - t) as u128)) == b,
{
    assert((((a << t) | b) & (u128::MAX >> ((128 - (s + t)) as u128))) >> t == a) by (bit_vector)
        requires
            1 <= s,
            1 <= t,
            s + t <= 128,
            a & (u128::MAX >> ((128 - s) as u128)) == a,
            b & (u128::MAX >> ((128 - t) as u128)) == b,
    ;
    assert((((a << t) | b) & (u128::MAX >> ((128 - (s + t)) as u128))) & (u128::MAX >> ((128 - t) as u128)) == b) by (bit_vector)
        requires
            1 <= s,
            1 <= t,
            s + t <= 128,
            a & (u128::MAX >> ((128 - s) as u128)) == a,
            b & (u128::MAX >> ((128 - t) as u128)) == b,
    ;
}

/// A concatenation of a value of `s` bits and one of `t` bits is `s + t` bits wide,
/// holds the right value in its low `t` bits and the left value above them.
pub proof fn law_concat(
    e: SpannedExpr,
    l: SpannedExpr,
    r: SpannedExpr,
    lv: WireValue,
    rv: WireValue,
    s: u8,
    t: u8,
    m: Map<Seq<char>, WireValue>,
    keys: Seq<Seq<char>>,
)
    requires
        *e.expr == Expr::Concat(l, r),
        spec_eval(l, m, keys) == Ok::<WireValue, ExprFault>(lv),
        spec_eval(r, m, keys) == Ok::<WireValue, ExprFault>(rv),
        lv.valid(),
        rv.valid(),
        lv.width == WireWidth::Bits(s),
        rv.width == WireWidth::Bits(t),
        1 <= s,
        1 <= t,
        s + t <= 128,
    ensures
        spec_eval(e, m, keys) matches Ok(v) && v.width == WireWidth::Bits((s + t) as u8) && v.bits >> (t as u128)
            == lv.bits && v.bits & crate::ast::low_mask(t) == rv.bits,
{
    let st: u8 = (s + t) as u8;
    assert(crate::ast::low_mask(s) == u128::MAX >> ((128 - s) as u128));
    assert(crate::ast::low_mask(t) == u128::MAX >> ((128 - t) as u128));
    if st == 128 {
        assert(u128::MAX >> 0u128 == u128::MAX) by (bit_vector);
        assert(crate::ast::low_mask(st) == u128::MAX >> ((128 - (s + t)) as u128));
    } else {
        assert(crate::ast::low_mask(st) == u128::MAX >> ((128 - (s + t)) as u128));
    }
    lemma_concat_bits(lv.bits, rv.bits, s as u128, t as u128);
}

proof fn lemma_select_bits(x: u128, low: u128, w: u128, k: u128)
    requires
        1 <= w <= 127,
        low < 128,
        k < 128,
    ensures
        k < w ==> (((x >> low) & (u128::MAX >> ((128 - w) as u128))) >> k) & 1 == (x >> low >> k) & 1,
        ((x >> low) & (u128::MAX >> ((128 - w) as u128))) >> w == 0,
{
    assert(k < w ==> (((x >> low) & (u128::MAX >> ((128 - w) as u128))) >> k) & 1 == (x >> low >> k) & 1) by (bit_vector)
        requires
            1 <= w <= 127,
            low < 128,
            k < 128,
    ;
    assert(((x >> low) & (u128::MAX >> ((128 - w) as u128))) >> w == 0) by (bit_vector)
        requires
            1 <= w <= 127,
    ;
}

/// A bit selection `[low..high]` of a value is `high - low` bits wide, and its bit `k`
/// is bit `low + k` of the value: nothing above `high - low` bits is kept.
pub proof fn law_bit_select(e: SpannedExpr, from: SpannedExpr, low: u8, high: u8, v: WireValue, k: u8, m: Map<Seq<char>, WireValue>, keys: Seq<Seq<char>>)
    requires
        *e.expr == (Expr::BitSelect { from, low, high }),
        spec_eval(from, m, keys) == Ok::<WireValue, ExprFault>(v),
        low < high,
        high - low < 128,
        low < 128,
        k < 128,
    ensures
        spec_eval(e, m, keys) matches Ok(r) && r.width == WireWidth::Bits((high - low) as u8) && (k < high - low ==> (r.bits
            >> (k as u128)) & 1 == (v.bits >> (low as u128) >> (k as u128)) & 1) && r.bits >> ((high - low) as u128) == 0,
{
    let w: u8 = (high - low) as u8;
    assert(crate::ast::low_mask(w) == u128::MAX >> ((128 - w) as u128));
    lemma_select_bits(v.bits, low as u128, w as u128, k as u128);
}

/// The error that evaluation reports matches the fault of the specification.
pub open spec fn eval_result_matches(r: Result<WireValue, Error>, s: Result<WireValue, ExprFault>) -> bool {
    match (r, s) {
        (Ok(v), Ok(u)) => v == u,
        (Err(e), Err(f)) => e.reports(f),
        _ => false,
    }
}

impl SpannedExpr {
    /// The value of the expression given the values of the wires it reads.
    #[verifier::rlimit(60)]
    #[verifier::spinoff_prover]
    pub fn evaluate(&self, wires: &WireValues) -> (r: Result<WireValue, Error>)
        requires
            self.well_formed(),
            values_valid(*wires),
        ensures
            eval_result_matches(r, spec_eval(*self, wires@, wires.keys())),
            r matches Ok(v) ==> v.valid(),
        decreases self, 1int,
    {
        match &*self.expr {
            Expr::Constant(value) => Ok(*value),
            Expr::BinOp(_, _, _) => self.evaluate_binop(wires),
            Expr::UnOp(opcode, inner) => {
                let inner_value = inner.evaluate(wires)?;
                Ok(opcode.apply(inner_value))
            },
            Expr::Mux(options) => {
                proof {
                    lemma_options_well_formed(options@, 0);
                }
                evaluate_mux(options, wires)
            },
            Expr::NamedWire(name) => match wires.get(name.as_str()) {
                Some(value) => Ok(*value),
                None => Err(
                    Error::UndeclaredWireRead {
                        name: name.clone(),
                        expr: self.copy(),
                        close_name: find_close_names_in(name.as_str(), wires.names()),
                    },
                ),
            },
            Expr::BitSelect { .. } => self.evaluate_bitselect(wires),
            Expr::Concat(_, _) => self.evaluate_concat(wires),
            Expr::InSet(left, lst) => {
                let left = left.evaluate(wires)?;
                proof {
                    lemma_items_well_formed(lst@, 0);
                }
                evaluate_inset(left, lst, wires)
            },
            Expr::Error => Err(Error::RuntimeMismatchedWidths()),
        }
    }

    fn evaluate_binop(&self, wires: &WireValues) -> (r: Result<WireValue, Error>)
        requires
            self.well_formed(),
            *self.expr is BinOp,
            values_valid(*wires),
        ensures
            eval_result_matches(r, spec_eval(*self, wires@, wires.keys())),
            r matches Ok(v) ==> v.valid(),
        decreases self, 0int,
    {
        if let Expr::BinOp(opcode, left, right) = &*self.expr {
            let left_value = left.evaluate(wires)?;
            let right_value = right.evaluate(wires)?;
            match opcode.apply(left_value, right_value) {
                Ok(v) => Ok(v),
                Err(BinOpFault::MismatchedWidths) => Err(Error::RuntimeMismatchedWidths()),
                Err(BinOpFault::DivisionByZero) => Err(Error::DivisionByZero(self.copy())),
            }
        } else {
            Err(Error::RuntimeMismatchedWidths())
        }
    }

    fn evaluate_bitselect(&self, wires: &WireValues) -> (r: Result<WireValue, Error>)
        requires
            self.well_formed(),
            *self.expr is BitSelect,
            values_valid(*wires),
        ensures
            eval_result_matches(r, spec_eval(*self, wires@, wires.keys())),
            r matches Ok(v) ==> v.valid(),
        decreases self, 0int,
    {
        if let Expr::BitSelect { from, low, high } = &*self.expr {
            let inner_value = from.evaluate(wires)?.bits;
            if *low > *high {
                return Err(Error::MisorderedBitIndexes(self.copy()));
            }
            if *high - *low > 128 {
                return Err(Error::InvalidBitIndex(self.copy(), *high));
            }
            let shifted = if *low >= 128 {
                0
            } else {
                inner_value >> *low
            };
            Ok(WireValue::new(shifted).as_width(WireWidth::Bits(*high - *low)))
        } else {
            Err(Error::RuntimeMismatchedWidths())
        }
    }

    fn evaluate_concat(&self, wires: &WireValues) -> (r: Result<WireValue, Error>)
        requires
            self.well_formed(),
            *self.expr is Concat,
            values_valid(*wires),
        ensures
            eval_result_matches(r, spec_eval(*self, wires@, wires.keys())),
            r matches Ok(v) ==> v.valid(),
        decreases self, 0int,
    {
        if let Expr::Concat(left, right) = &*self.expr {
            let left_value = left.evaluate(wires)?;
            let right_value = right.evaluate(wires)?;
            if let WireWidth::Bits(right_bits) = right_value.width {
                if let WireWidth::Bits(left_bits) = left_value.width {
                    if left_bits as u16 + right_bits as u16 > 128 {
                        return Err(Error::WireTooWide(self.copy()));
                    }
                    let shifted_left = if right_bits >= 128 {
                        0
                    } else {
                        left_value.bits << right_bits
                    };
                    Ok(
                        WireValue::new(shifted_left | right_value.bits).as_width(
                            WireWidth::Bits(left_bits + right_bits),
                        ),
                    )
                } else {
                    Err(Error::NoBitWidth(left.copy()))
                }
            } else {
                Err(Error::NoBitWidth(right.copy()))
            }
        } else {
            Err(Error::RuntimeMismatchedWidths())
        }
    }

    /// The value of the expression when it reads no wires.
    pub fn evaluate_constant(&self) -> (r: Result<WireValue, Error>)
        requires
            self.well_formed(),
        ensures
            eval_result_matches(r, spec_eval(*self, Map::empty(), Seq::empty())),
            r matches Ok(v) ==> v.valid(),
    {
        let wires: WireValues = NameMap::new();
        self.evaluate(&wires)
    }

    /// The expression evaluates, given the values, to a true (nonzero) value.
    pub open spec fn spec_always_true(self, values: WireValues) -> bool {
        match spec_eval(self, values@, values.keys()) {
            Ok(v) => v.bits > 0,
            Err(_) => false,
        }
    }

    pub fn always_true(&self, values: &WireValues) -> (r: bool)
        requires
            self.well_formed(),
            values_valid(*values),
        ensures
            r == self.spec_always_true(*values),
    {
        match self.evaluate(values) {
            Ok(value) => value.is_true(),
            Err(_) => false,
        }
    }
}

fn evaluate_mux(options: &Vec<MuxOption>, wires: &WireValues) -> (r: Result<WireValue, Error>)
    requires
        forall|j: int|
            #![trigger options@[j]]
            0 <= j < options@.len() ==> options@[j].condition.well_formed() && options@[j].value.well_formed(),
        values_valid(*wires),
    ensures
        eval_result_matches(r, spec_eval_mux(options@, 0, wires@, wires.keys())),
        r matches Ok(v) ==> v.valid(),
    decreases options@, 1int,
{
    let mut i: usize = 0;
    while i < options.len()
        invariant
            i <= options@.len(),
            forall|j: int|
                #![trigger options@[j]]
                0 <= j < options@.len() ==> options@[j].condition.well_formed()
                    && options@[j].value.well_formed(),
            values_valid(*wires),
            spec_eval_mux(options@, 0, wires@, wires.keys()) == spec_eval_mux(options@, i as int, wires@, wires.keys()),
        decreases options@.len() - i,
    {
        let c = options[i].condition.evaluate(wires)?;
        if c.is_true() {
            return options[i].value.evaluate(wires);
        }
        i = i + 1;
    }
    let r = WireValue::new(0);
    Ok(r)
}

fn evaluate_inset(left: WireValue, items: &Vec<SpannedExpr>, wires: &WireValues) -> (r: Result<WireValue, Error>)
    requires
        forall|j: int| #![trigger items@[j]] 0 <= j < items@.len() ==> items@[j].well_formed(),
        values_valid(*wires),
    ensures
        eval_result_matches(r, spec_eval_inset(left, items@, 0, wires@, wires.keys())),
        r matches Ok(v) ==> v.valid(),
    decreases items@, 1int,
{
    let mut i: usize = 0;
    while i < items.len()
        invariant
            i <= items@.len(),
            forall|j: int| #![trigger items@[j]] 0 <= j < items@.len() ==> items@[j].well_formed(),
            values_valid(*wires),
            spec_eval_inset(left, items@, 0, wires@, wires.keys()) == spec_eval_inset(left, items@, i as int, wires@, wires.keys()),
        decreases items@.len() - i,
    {
        let right = items[i].evaluate(wires)?;
        if left.bits == right.bits {
            return Ok(WireValue::true_value());
        }
        i = i + 1;
    }
    Ok(WireValue::false_value())
}

} // verus!
