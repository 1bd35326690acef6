//! Wire widths, wire values and the operators of the language.
use vstd::prelude::*;

verus! {

/// The width of a wire: a number of bits, or no fixed width (an untyped constant).
#[derive(Clone, Copy, Debug, PartialEq, Eq, Structural, PartialOrd, Ord)]
pub enum WireWidth {
    Bits(u8),
    Unlimited,
}

/// All-ones in the low `s` bits.
pub open spec fn low_mask(s: u8) -> u128 {
    if s == 0 {
        0
    } else if s >= 128 {
        u128::MAX
    } else {
        u128::MAX >> ((128 - s) as u128)
    }
}

impl WireWidth {
    /// A width that a value can have: at most 128 bits.
    pub open spec fn valid(self) -> bool {
        match self {
            WireWidth::Bits(s) => s <= 128,
            WireWidth::Unlimited => true,
        }
    }

    /// The bits that a value of this width can hold.
    pub open spec fn spec_mask(self) -> u128 {
        match self {
            WireWidth::Bits(s) => low_mask(s),
            WireWidth::Unlimited => u128::MAX,
        }
    }

    pub open spec fn spec_bits_or_128(self) -> u8 {
        match self {
            WireWidth::Bits(x) => x,
            WireWidth::Unlimited => 128,
        }
    }

    /// The common width of two operands that must agree: an unlimited width
    /// agrees with any width, two bit widths only with themselves.
    pub open spec fn spec_combine(self, other: WireWidth) -> Option<WireWidth> {
        match (self, other) {
            (WireWidth::Unlimited, _) => Some(other),
            (_, WireWidth::Unlimited) => Some(self),
            (WireWidth::Bits(s), WireWidth::Bits(t)) => if s == t {
                Some(self)
            } else {
                None
            },
        }
    }

    /// The wider of two widths; an unlimited width gives way to any bit width.
    pub open spec fn spec_max(self, other: WireWidth) -> WireWidth {
        match (self, other) {
            (WireWidth::Unlimited, _) => other,
            (_, WireWidth::Unlimited) => self,
            (WireWidth::Bits(s), WireWidth::Bits(t)) => if s > t {
                self
            } else {
                other
            },
        }
    }

    pub fn bits_or_128(&self) -> (r: u8)
        ensures
            r == self.spec_bits_or_128(),
    {
        match *self {
            WireWidth::Bits(x) => x,
            _ => 128,
        }
    }

    pub fn possibly_boolean(self) -> (r: bool)
        ensures
            r == (self == WireWidth::Unlimited || self == WireWidth::Bits(1)),
    {
        self == WireWidth::Unlimited || self == WireWidth::Bits(1)
    }

    pub fn combine(self, other: WireWidth) -> (r: Option<WireWidth>)
        ensures
            r == self.spec_combine(other),
    {
        match (self, other) {
            (WireWidth::Unlimited, _) => Some(other),
            (_, WireWidth::Unlimited) => Some(self),
            (WireWidth::Bits(s), WireWidth::Bits(t)) => if s == t {
                Some(self)
            } else {
                None
            },
        }
    }

    pub fn max(self, other: WireWidth) -> (r: WireWidth)
        ensures
            r == self.spec_max(other),
    {
        match (self, other) {
            (WireWidth::Unlimited, _) => other,
            (_, WireWidth::Unlimited) => self,
            (WireWidth::Bits(s), WireWidth::Bits(t)) => if s > t {
                self
            } else {
                other
            },
        }
    }

    pub fn valid_width(self) -> (r: bool)
        ensures
            r == self.valid(),
    {
        match self {
            WireWidth::Bits(s) => s <= 128,
            WireWidth::Unlimited => true,
        }
    }

    pub fn mask(self) -> (r: u128)
        requires
            self.valid(),
        ensures
            r == self.spec_mask(),
    {
        match self {
            WireWidth::Unlimited => u128::MAX,
            WireWidth::Bits(0) => 0,
            WireWidth::Bits(s) => {
                if s == 128 {
                    u128::MAX
                } else {
                    u128::MAX >> ((128 - s) as u128)
                }
            },
        }
    }
}

/// Widths agree with each other in either order.
pub proof fn lemma_combine_commutes(a: WireWidth, b: WireWidth)
    ensures
        a.spec_combine(b) == b.spec_combine(a),
        a.spec_max(b) == b.spec_max(a),
{
}

/// Combining a width with itself gives it back, and so does combining with an unlimited width.
pub proof fn lemma_combine_identity(a: WireWidth)
    ensures
        a.spec_combine(a) == Some(a),
        a.spec_combine(WireWidth::Unlimited) == Some(a),
        a.spec_max(a) == a,
        a.spec_max(WireWidth::Unlimited) == a,
{
}

/// The mask of `s` bits holds exactly the numbers below 2 to the `s`.
pub proof fn lemma_low_mask_value(s: u8)
    requires
        1 <= s <= 127,
    ensures
        low_mask(s) as nat == vstd::arithmetic::power2::pow2(s as nat) - 1,
{
    let k: u128 = (128 - s) as u128;
    vstd::bits::lemma_u128_shr_is_div(u128::MAX, k);
    vstd::arithmetic::power2::lemma_pow2_adds(s as nat, k as nat);
    vstd::arithmetic::power2::lemma_pow2_pos(k as nat);
    vstd::arithmetic::power2::lemma_pow2_pos(s as nat);
    assert(vstd::arithmetic::power2::pow2(128) == u128::MAX + 1) by {
        vstd::arithmetic::power2::lemma2_to64();
        vstd::arithmetic::power2::lemma2_to64_rest();
        vstd::arithmetic::power2::lemma_pow2_adds(64, 64);
    }
    let a = vstd::arithmetic::power2::pow2(s as nat) as int;
    let b = vstd::arithmetic::power2::pow2(k as nat) as int;
    assert(u128::MAX as int == a * b - 1);
    assert(a * b - 1 == (a - 1) * b + (b - 1)) by (nonlinear_arith);
    assert((a * b - 1) / b == a - 1) by {
        vstd::arithmetic::div_mod::lemma_fundamental_div_mod_converse(a * b - 1, b, a - 1, b - 1);
    }
}

/// A number below 2 to the `s` keeps all its bits under the mask of `s` bits.
pub proof fn lemma_fits_low_mask(x: u128, s: u8)
    requires
        1 <= s <= 128,
        x < vstd::arithmetic::power2::pow2(s as nat),
    ensures
        x & low_mask(s) == x,
{
    if s == 128 {
        assert(x & u128::MAX == x) by (bit_vector);
    } else {
        lemma_low_mask_value(s);
        let k: u128 = (128 - s) as u128;
        assert(x <= (u128::MAX >> k) ==> x & (u128::MAX >> k) == x) by (bit_vector);
    }
}

/// A value on a wire: its bits and its width.
#[derive(Clone, Copy, Debug, PartialEq, Eq, Structural)]
pub struct WireValue {
    pub bits: u128,
    pub width: WireWidth,
}

impl WireValue {
    /// A value whose bits fit in its width, and whose width is one a wire can have.
    pub open spec fn valid(self) -> bool {
        &&& self.width.valid()
        &&& self.bits & self.width.spec_mask() == self.bits
    }

    pub open spec fn spec_as_width(self, new_width: WireWidth) -> WireValue {
        WireValue { bits: self.bits & new_width.spec_mask(), width: new_width }
    }

    pub fn true_value() -> (r: WireValue)
        ensures
            r == (WireValue { bits: 1, width: WireWidth::Bits(1) }),
            r.valid(),
    {
        assert(1u128 & (u128::MAX >> 127u128) == 1u128) by (bit_vector);
        WireValue { bits: 1, width: WireWidth::Bits(1) }
    }

    pub fn false_value() -> (r: WireValue)
        ensures
            r == (WireValue { bits: 0, width: WireWidth::Bits(1) }),
            r.valid(),
    {
        assert(0u128 & (u128::MAX >> 127u128) == 0u128) by (bit_vector);
        WireValue { bits: 0, width: WireWidth::Bits(1) }
    }

    pub fn new(v: u128) -> (r: WireValue)
        ensures
            r == (WireValue { bits: v, width: WireWidth::Unlimited }),
            r.valid(),
    {
        assert(v & u128::MAX == v) by (bit_vector);
        WireValue { bits: v, width: WireWidth::Unlimited }
    }

    pub fn from_u64(v: u64) -> (r: WireValue)
        ensures
            r == (WireValue { bits: v as u128, width: WireWidth::Unlimited }),
            r.valid(),
    {
        WireValue::new(v as u128)
    }

    pub fn as_width(self, new_width: WireWidth) -> (r: WireValue)
        requires
            new_width.valid(),
        ensures
            r == self.spec_as_width(new_width),
            r.valid(),
    {
        let m = new_width.mask();
        let sb = self.bits;
        let b = sb & m;
        assert(b & m == b) by (bit_vector)
            requires
                b == sb & m,
        ;
        WireValue { bits: b, width: new_width }
    }

    pub fn op<F>(self, other: WireValue, f: F, new_width: WireWidth) -> (r: WireValue) where
        F: Fn(u128, u128) -> u128,

        requires
            new_width.valid(),
            f.requires((self.bits, other.bits)),
        ensures
            exists|x: u128|
                f.ensures((self.bits, other.bits), x) && r == (WireValue {
                    bits: x & new_width.spec_mask(),
                    width: new_width,
                }),
            r.valid(),
    {
        let x = f(self.bits, other.bits);
        WireValue::new(x).as_width(new_width)
    }

    pub fn is_true(self) -> (r: bool)
        ensures
            r == (self.bits > 0),
    {
        self.bits > 0
    }
}

impl WireValue {
    /// The value written in binary digits, as wide as the number of digits.
    pub fn from_binary(s: &str) -> (r: WireValue)
        requires
            1 <= s@.len() <= 128,
            forall|i: int| 0 <= i < s@.len() ==> #[trigger] crate::lexer::spec_is_binary_char(s@[i]),
        ensures
            r.bits == crate::lexer::digits_value(s@, 2),
            r.width == WireWidth::Bits(s@.len() as u8),
            r.valid(),
    {
        let chars = crate::text::chars_of(s);
        proof {
            crate::lexer::lemma_binary_fits(s@);
            vstd::arithmetic::power2::lemma_pow2_pos(s@.len());
            let p = vstd::arithmetic::power2::pow2(s@.len());
            assert(p <= vstd::arithmetic::power2::pow2(128)) by {
                if s@.len() < 128 {
                    vstd::arithmetic::power2::lemma_pow2_strictly_increases(s@.len(), 128);
                }
            }
            assert(vstd::arithmetic::power2::pow2(128) == u128::MAX + 1) by {
                vstd::arithmetic::power2::lemma2_to64();
                vstd::arithmetic::power2::lemma2_to64_rest();
                vstd::arithmetic::power2::lemma_pow2_adds(64, 64);
            }
        }
        let bits = match crate::lexer::parse_digits(chars.as_slice(), 2) {
            Some(v) => v,
            None => 0,
        };
        let n = chars.len() as u8;
        proof {
            lemma_fits_low_mask(bits, n);
        }
        WireValue { bits, width: WireWidth::Bits(n) }
    }

    /// The value written in decimal digits, with no fixed width.
    pub fn from_decimal(s: &str) -> (r: WireValue)
        requires
            crate::lexer::digits_value(s@, 10) <= u128::MAX,
        ensures
            r.bits == crate::lexer::digits_value(s@, 10),
            r.width == WireWidth::Unlimited,
            r.valid(),
    {
        let chars = crate::text::chars_of(s);
        let bits = match crate::lexer::parse_digits(chars.as_slice(), 10) {
            Some(v) => v,
            None => 0,
        };
        WireValue::new(bits)
    }

    /// The value written in hexadecimal digits, with no fixed width.
    pub fn from_hexadecimal(s: &str) -> (r: WireValue)
        requires
            crate::lexer::digits_value(s@, 16) <= u128::MAX,
        ensures
            r.bits == crate::lexer::digits_value(s@, 16),
            r.width == WireWidth::Unlimited,
            r.valid(),
    {
        let chars = crate::text::chars_of(s);
        let bits = match crate::lexer::parse_digits(chars.as_slice(), 16) {
            Some(v) => v,
            None => 0,
        };
        WireValue::new(bits)
    }
}

impl From<usize> for WireWidth {
    fn from(s: usize) -> (r: WireWidth) {
        WireWidth::Bits(s as u8)
    }
}

impl vstd::std_specs::convert::FromSpecImpl<usize> for WireWidth {
    open spec fn obeys_from_spec() -> bool {
        true
    }

    open spec fn from_spec(s: usize) -> WireWidth {
        WireWidth::Bits(s as u8)
    }
}

impl From<i32> for WireWidth {
    fn from(s: i32) -> (r: WireWidth) {
        WireWidth::Bits(s as u8)
    }
}

impl vstd::std_specs::convert::FromSpecImpl<i32> for WireWidth {
    open spec fn obeys_from_spec() -> bool {
        true
    }

    open spec fn from_spec(s: i32) -> WireWidth {
        WireWidth::Bits(s as u8)
    }
}

impl From<u8> for WireWidth {
    fn from(s: u8) -> (r: WireWidth) {
        WireWidth::Bits(s)
    }
}

impl vstd::std_specs::convert::FromSpecImpl<u8> for WireWidth {
    open spec fn obeys_from_spec() -> bool {
        true
    }

    open spec fn from_spec(s: u8) -> WireWidth {
        WireWidth::Bits(s)
    }
}

/// Changing the width of a value twice to the same width is the same as doing it once.
pub proof fn lemma_as_width_idempotent(v: WireValue, w: WireWidth)
    ensures
        v.spec_as_width(w).spec_as_width(w) == v.spec_as_width(w),
{
    let m = w.spec_mask();
    let b = v.bits;
    assert((b & m) & m == b & m) by (bit_vector);
}

/// A valid value keeps its bits when given its own width.
pub proof fn lemma_as_own_width(v: WireValue)
    requires
        v.valid(),
    ensures
        v.spec_as_width(v.width) == v,
{
}

/// Require equal widths for arithmetic operators (otherwise the wider width is taken).
pub const STRICT_WIDTHS_BINARY: bool = false;

/// Require one-bit (or unlimited) operands for `&&` and `||`.
pub const STRICT_WIDTHS_BOOLEAN: bool = true;

/// Require every mux to have an option whose condition is always true.
pub const REQUIRE_MUX_DEFAULT: bool = true;

/// Refuse a mux with more than one option whose condition is always true.
pub const DISALLOW_MULTIPLE_MUX_DEFAULT: bool = true;

/// Refuse a mux with an option after one whose condition is always true.
pub const DISALLOW_UNREACHABLE_OPTIONS: bool = true;

/// How the width of a binary operation is found from the widths of its operands.
#[derive(Clone, Copy, Debug, PartialEq, Eq, Structural)]
pub enum BinOpKind {
    BooleanCombine,
    BooleanFromEqualWidth,
    EqualWidth,
    EqualWidthWeak,
}

#[derive(Clone, Copy, Debug, PartialEq, Eq, Structural)]
pub enum BinOpCode {
    Add,
    Sub,
    Mul,
    Div,
    Or,
    Xor,
    And,
    Equal,
    NotEqual,
    LessEqual,
    GreaterEqual,
    Less,
    Greater,
    LogicalAnd,
    LogicalOr,
    LeftShift,
    RightShift,
    Error,
}

/// The number of distinct 128-bit values.
pub open spec fn two_128() -> int {
    u128::MAX as int + 1
}

proof fn lemma_mod_two_128(x: int)
    requires
        0 <= x < 2 * two_128(),
    ensures
        x % two_128() == if x >= two_128() {
            x - two_128()
        } else {
            x
        },
{
    if x >= two_128() {
        vstd::arithmetic::div_mod::lemma_fundamental_div_mod_converse(x, two_128(), 1, x - two_128());
    } else {
        vstd::arithmetic::div_mod::lemma_fundamental_div_mod_converse(x, two_128(), 0, x);
    }
}

pub open spec fn spec_boolean_to_value(x: bool) -> u128 {
    if x {
        1
    } else {
        0
    }
}

pub fn boolean_to_value(x: bool) -> (r: u128)
    ensures
        r == spec_boolean_to_value(x),
{
    if x {
        1
    } else {
        0
    }
}

impl BinOpCode {
    pub open spec fn spec_kind(self) -> BinOpKind {
        match self {
            BinOpCode::LogicalAnd | BinOpCode::LogicalOr => BinOpKind::BooleanCombine,
            BinOpCode::Equal | BinOpCode::LessEqual | BinOpCode::GreaterEqual | BinOpCode::Less
            | BinOpCode::Greater | BinOpCode::NotEqual => BinOpKind::BooleanFromEqualWidth,
            BinOpCode::Add | BinOpCode::Sub | BinOpCode::Mul | BinOpCode::Div => BinOpKind::EqualWidthWeak,
            _ => BinOpKind::EqualWidth,
        }
    }

    /// The operator on raw 128-bit values: arithmetic wraps around, comparisons and
    /// logical operators give 0 or 1, and a shift by 128 or more bits gives 0.
    pub open spec fn spec_apply_raw(self, left: u128, right: u128) -> u128 {
        match self {
            BinOpCode::Add => ((left + right) % two_128()) as u128,
            BinOpCode::Sub => ((left - right + two_128()) % two_128()) as u128,
            BinOpCode::Mul => ((left * right) % two_128()) as u128,
            BinOpCode::Div => left / right,
            BinOpCode::Or => left | right,
            BinOpCode::Xor => left ^ right,
            BinOpCode::And => left & right,
            BinOpCode::Equal => spec_boolean_to_value(left == right),
            BinOpCode::NotEqual => spec_boolean_to_value(left != right),
            BinOpCode::LessEqual => spec_boolean_to_value(left <= right),
            BinOpCode::GreaterEqual => spec_boolean_to_value(left >= right),
            BinOpCode::Less => spec_boolean_to_value(left < right),
            BinOpCode::Greater => spec_boolean_to_value(left > right),
            BinOpCode::LogicalAnd => spec_boolean_to_value(left != 0 && right != 0),
            BinOpCode::LogicalOr => spec_boolean_to_value(left != 0 || right != 0),
            BinOpCode::LeftShift => if right >= 128 {
                0
            } else {
                left << right
            },
            BinOpCode::RightShift => if right >= 128 {
                0
            } else {
                left >> right
            },
            BinOpCode::Error => 0,
        }
    }

    /// The width of the result of the operator applied to values of the given widths,
    /// or `None` where the widths must agree and do not.
    pub open spec fn spec_result_width(self, left: WireWidth, right: WireWidth) -> Option<WireWidth> {
        match self.spec_kind() {
            BinOpKind::EqualWidth => left.spec_combine(right),
            BinOpKind::EqualWidthWeak => if STRICT_WIDTHS_BINARY {
                left.spec_combine(right)
            } else {
                Some(left.spec_max(right))
            },
            BinOpKind::BooleanCombine | BinOpKind::BooleanFromEqualWidth => Some(WireWidth::Bits(1)),
        }
    }

    pub fn kind(self) -> (r: BinOpKind)
        ensures
            r == self.spec_kind(),
    {
        match self {
            BinOpCode::LogicalAnd => BinOpKind::BooleanCombine,
            BinOpCode::LogicalOr => BinOpKind::BooleanCombine,
            BinOpCode::Equal => BinOpKind::BooleanFromEqualWidth,
            BinOpCode::LessEqual => BinOpKind::BooleanFromEqualWidth,
            BinOpCode::GreaterEqual => BinOpKind::BooleanFromEqualWidth,
            BinOpCode::Less => BinOpKind::BooleanFromEqualWidth,
            BinOpCode::Greater => BinOpKind::BooleanFromEqualWidth,
            BinOpCode::NotEqual => BinOpKind::BooleanFromEqualWidth,
            BinOpCode::Add => BinOpKind::EqualWidthWeak,
            BinOpCode::Sub => BinOpKind::EqualWidthWeak,
            BinOpCode::Mul => BinOpKind::EqualWidthWeak,
            BinOpCode::Div => BinOpKind::EqualWidthWeak,
            _ => BinOpKind::EqualWidth,
        }
    }

    pub fn apply_raw(self, left: u128, right: u128) -> (r: u128)
        requires
            self != BinOpCode::Error,
            self == BinOpCode::Div ==> right != 0,
        ensures
            r == self.spec_apply_raw(left, right),
    {
        match self {
            BinOpCode::Add => {
                proof {
                    lemma_mod_two_128(left + right);
                }
                left.wrapping_add(right)
            },
            BinOpCode::Sub => {
                proof {
                    lemma_mod_two_128(left - right + two_128());
                }
                left.wrapping_sub(right)
            },
            BinOpCode::Mul => left.wrapping_mul(right),
            BinOpCode::Div => left / right,
            BinOpCode::Or => left | right,
            BinOpCode::Xor => left ^ right,
            BinOpCode::And => left & right,
            BinOpCode::Equal => boolean_to_value(left == right),
            BinOpCode::NotEqual => boolean_to_value(left != right),
            BinOpCode::LessEqual => boolean_to_value(left <= right),
            BinOpCode::GreaterEqual => boolean_to_value(left >= right),
            BinOpCode::Less => boolean_to_value(left < right),
            BinOpCode::Greater => boolean_to_value(left > right),
            BinOpCode::LogicalAnd => boolean_to_value(left != 0 && right != 0),
            BinOpCode::LogicalOr => boolean_to_value(left != 0 || right != 0),
            BinOpCode::LeftShift => {
                if right >= 128 {
                    0
                } else {
                    left << right
                }
            },
            BinOpCode::RightShift => {
                if right >= 128 {
                    0
                } else {
                    left >> right
                }
            },
            BinOpCode::Error => 0,
        }
    }

    /// Applies the operator to two values; fails where the operand widths must agree
    /// and do not, and on a division by zero.
    pub fn apply(self, left: WireValue, right: WireValue) -> (r: Result<WireValue, BinOpFault>)
        requires
            self != BinOpCode::Error,
            left.width.valid(),
            right.width.valid(),
        ensures
            match self.spec_result_width(left.width, right.width) {
                Some(w) => if self == BinOpCode::Div && right.bits == 0 {
                    r == Err::<WireValue, BinOpFault>(BinOpFault::DivisionByZero)
                } else {
                    r == Ok::<WireValue, BinOpFault>(
                        WireValue { bits: self.spec_apply_raw(left.bits, right.bits), width: WireWidth::Unlimited }.spec_as_width(w),
                    )
                },
                None => r == Err::<WireValue, BinOpFault>(BinOpFault::MismatchedWidths),
            },
            r matches Ok(v) ==> v.valid(),
    {
        let final_width = match self.kind() {
            BinOpKind::EqualWidth => match left.width.combine(right.width) {
                Some(width) => width,
                None => {
                    return Err(BinOpFault::MismatchedWidths);
                },
            },
            BinOpKind::EqualWidthWeak => if STRICT_WIDTHS_BINARY {
                match left.width.combine(right.width) {
                    Some(width) => width,
                    None => return Err(BinOpFault::MismatchedWidths),
                }
            } else {
                left.width.max(right.width)
            },
            BinOpKind::BooleanCombine | BinOpKind::BooleanFromEqualWidth => WireWidth::Bits(1),
        };
        if self == BinOpCode::Div && right.bits == 0 {
            return Err(BinOpFault::DivisionByZero);
        }
        let raw = self.apply_raw(left.bits, right.bits);
        Ok(WireValue::new(raw).as_width(final_width))
    }
}

/// Why an operator could not be applied.
#[derive(Clone, Copy, Debug, PartialEq, Eq, Structural)]
pub enum BinOpFault {
    MismatchedWidths,
    DivisionByZero,
}

#[derive(Clone, Copy, Debug, PartialEq, Eq, Structural)]
pub enum UnOpCode {
    Plus,
    Negate,
    Complement,
    Not,
}

impl UnOpCode {
    /// The operator on raw bits: negation is two's complement, `!` gives 1 exactly for 0.
    pub open spec fn spec_apply_raw(self, bits: u128) -> u128 {
        match self {
            UnOpCode::Plus => bits,
            UnOpCode::Negate => ((two_128() - bits) % two_128()) as u128,
            UnOpCode::Complement => !bits,
            UnOpCode::Not => if bits != 0 {
                0
            } else {
                1
            },
        }
    }

    pub open spec fn spec_apply(self, value: WireValue) -> WireValue {
        WireValue {
            bits: self.spec_apply_raw(value.bits) & value.width.spec_mask(),
            width: if self == UnOpCode::Not {
                WireWidth::Bits(1)
            } else {
                value.width
            },
        }
    }

    pub fn apply(self, value: WireValue) -> (r: WireValue)
        requires
            value.width.valid(),
        ensures
            r == self.spec_apply(value),
            r.valid(),
    {
        let b = value.bits;
        let new_value = match self {
            UnOpCode::Plus => b,
            UnOpCode::Negate => {
                let nb = !b;
                assert(nb == u128::MAX - b) by (bit_vector)
                    requires
                        nb == !b,
                ;
                proof {
                    lemma_mod_two_128(two_128() - b);
                }
                nb.wrapping_add(1)
            },
            UnOpCode::Complement => !b,
            UnOpCode::Not => if b != 0 {
                0
            } else {
                1
            },
        };
        let m = value.width.mask();
        let nb = new_value & m;
        proof {
            assert(nb & m == nb) by (bit_vector)
                requires
                    nb == new_value & m,
            ;
            if self == UnOpCode::Not {
                let one_mask = low_mask(1);
                assert(one_mask == 1) by (bit_vector)
                    requires
                        one_mask == u128::MAX >> 127u128,
                ;
                assert(nb <= new_value) by (bit_vector)
                    requires
                        nb == new_value & m,
                ;
                assert(nb & 1 == nb) by (bit_vector)
                    requires
                        nb <= 1,
                ;
            }
        }
        WireValue {
            bits: nb,
            width: if self == UnOpCode::Not {
                WireWidth::Bits(1)
            } else {
                value.width
            },
        }
    }
}

/// A range of positions in the source text, counted in characters: start (inclusive)
/// and end (exclusive).
pub type Span = (usize, usize);

/// A position in the source text, counted in characters from its start.
pub type Loc = usize;

/// A declared wire with its width.
#[derive(Debug, PartialEq, Eq)]
pub struct WireDecl {
    pub name: String,
    pub width: WireWidth,
    pub span: Span,
}

impl WireDecl {
    /// A declaration that stands in no source text.
    pub fn synthetic(name: &str, bits: u8) -> (r: WireDecl)
        ensures
            r.name@ == name@,
            r.width == WireWidth::Bits(bits),
            r.span == (0usize, 0usize),
    {
        WireDecl { name: String::from_str(name), width: WireWidth::Bits(bits), span: (0, 0) }
    }
}

/// A declared constant with the expression for its value.
#[derive(Debug, PartialEq, Eq)]
pub struct ConstDecl {
    pub name: String,
    pub name_span: Span,
    pub value: SpannedExpr,
}

/// One option of a mux: the value is chosen when the condition is true.
#[derive(Debug, PartialEq, Eq)]
pub struct MuxOption {
    pub condition: SpannedExpr,
    pub value: SpannedExpr,
}

/// An expression with the source range it was read from.
#[derive(Debug, PartialEq, Eq)]
pub struct SpannedExpr {
    pub expr: Box<Expr>,
    pub span: Span,
}

#[derive(Debug, PartialEq, Eq)]
pub enum Expr {
    Constant(WireValue),
    BinOp(BinOpCode, SpannedExpr, SpannedExpr),
    UnOp(UnOpCode, SpannedExpr),
    Mux(Vec<MuxOption>),
    NamedWire(String),
    BitSelect { from: SpannedExpr, low: u8, high: u8 },
    Concat(SpannedExpr, SpannedExpr),
    InSet(SpannedExpr, Vec<SpannedExpr>),
    Error,
}

impl SpannedExpr {
    pub fn new(span: Span, expr: Expr) -> (r: SpannedExpr)
        ensures
            r.span == span,
            *r.expr == expr,
    {
        SpannedExpr { expr: Box::new(expr), span: span }
    }

    pub fn to_expr(&self) -> (r: &Expr)
        ensures
            *r == *self.expr,
    {
        &*self.expr
    }

    pub fn to_mut_expr(&mut self) -> (r: &mut Expr)
        ensures
            *r == *old(self).expr,
            *final(self).expr == *final(r),
            final(self).span == old(self).span,
    {
        &mut *self.expr
    }

    /// The two expressions are the same tree: the same kinds, operators, constants,
    /// names, bit indexes and source ranges at every node.
    pub open spec fn same_as(self, other: SpannedExpr) -> bool
        decreases self, 0int,
    {
        &&& self.span == other.span
        &&& match *self.expr {
            Expr::Constant(x) => *other.expr == Expr::Constant(x),
            Expr::BinOp(o1, l1, r1) => match *other.expr {
                Expr::BinOp(o2, l2, r2) => o1 == o2 && l1.same_as(l2) && r1.same_as(r2),
                _ => false,
            },
            Expr::UnOp(o1, x1) => match *other.expr {
                Expr::UnOp(o2, x2) => o1 == o2 && x1.same_as(x2),
                _ => false,
            },
            Expr::Mux(p1) => match *other.expr {
                Expr::Mux(p2) => same_options(p1@, p2@, 0),
                _ => false,
            },
            Expr::NamedWire(n1) => match *other.expr {
                Expr::NamedWire(n2) => n1@ == n2@,
                _ => false,
            },
            Expr::BitSelect { from: f1, low: a1, high: b1 } => match *other.expr {
                Expr::BitSelect { from: f2, low: a2, high: b2 } => f1.same_as(f2) && a1 == a2 && b1 == b2,
                _ => false,
            },
            Expr::Concat(l1, r1) => match *other.expr {
                Expr::Concat(l2, r2) => l1.same_as(l2) && r1.same_as(r2),
                _ => false,
            },
            Expr::InSet(l1, i1) => match *other.expr {
                Expr::InSet(l2, i2) => l1.same_as(l2) && same_items(i1@, i2@, 0),
                _ => false,
            },
            Expr::Error => *other.expr is Error,
        }
    }

    /// An expression that the evaluator and the width checker accept: it holds no
    /// parse error, its constants are valid values, and each mux has an option.
    pub open spec fn well_formed(self) -> bool
        decreases self, 0int,
    {
        match *self.expr {
            Expr::Constant(v) => v.valid(),
            Expr::BinOp(op, l, r) => op != BinOpCode::Error && l.well_formed() && r.well_formed(),
            Expr::UnOp(_, inner) => inner.well_formed(),
            Expr::Mux(options) => options_well_formed(options@, 0),
            Expr::NamedWire(_) => true,
            Expr::BitSelect { from, low, high } => from.well_formed(),
            Expr::Concat(l, r) => l.well_formed() && r.well_formed(),
            Expr::InSet(l, items) => l.well_formed() && items_well_formed(items@, 0),
            Expr::Error => false,
        }
    }

    /// A copy of the expression: the same tree.
    pub fn copy(&self) -> (r: SpannedExpr)
        ensures
            r.same_as(*self),
            r.span == self.span,
            r.well_formed() == self.well_formed(),
            crate::refs::spec_refs(r) == crate::refs::spec_refs(*self),
        decreases self, 0int,
    {
        let e = match &*self.expr {
            Expr::Constant(v) => Expr::Constant(*v),
            Expr::BinOp(op, l, r) => Expr::BinOp(*op, l.copy(), r.copy()),
            Expr::UnOp(op, inner) => Expr::UnOp(*op, inner.copy()),
            Expr::Mux(options) => Expr::Mux(copy_options(options)),
            Expr::NamedWire(name) => Expr::NamedWire(name.clone()),
            Expr::BitSelect { from, low, high } => Expr::BitSelect {
                from: from.copy(),
                low: *low,
                high: *high,
            },
            Expr::Concat(l, r) => Expr::Concat(l.copy(), r.copy()),
            Expr::InSet(l, items) => Expr::InSet(l.copy(), copy_items(items)),
            Expr::Error => Expr::Error,
        };
        SpannedExpr { expr: Box::new(e), span: self.span }
    }
}

impl SpannedExpr {
    /// Whether the expression is well formed: no parse error, valid constants.
    pub fn is_well_formed(&self) -> (r: bool)
        ensures
            r == self.well_formed(),
        decreases self, 0int,
    {
        match &*self.expr {
            Expr::Constant(v) => {
                let m = v.width.valid_width();
                if !m {
                    return false;
                }
                v.bits & v.width.mask() == v.bits
            },
            Expr::BinOp(op, l, r) => {
                let not_error = match op {
                    BinOpCode::Error => false,
                    _ => true,
                };
                not_error && l.is_well_formed() && r.is_well_formed()
            },
            Expr::UnOp(_, inner) => inner.is_well_formed(),
            Expr::Mux(options) => options_are_well_formed(options),
            Expr::NamedWire(_) => true,
            Expr::BitSelect { from, .. } => from.is_well_formed(),
            Expr::Concat(l, r) => l.is_well_formed() && r.is_well_formed(),
            Expr::InSet(l, items) => l.is_well_formed() && items_are_well_formed(items),
            Expr::Error => false,
        }
    }
}

/// Whether every option of a mux is well formed.
pub fn options_are_well_formed(options: &Vec<MuxOption>) -> (r: bool)
    ensures
        r == options_well_formed(options@, 0),
    decreases options@, 1int,
{
    let mut i: usize = options.len();
    while i > 0
        invariant
            i <= options@.len(),
            options_well_formed(options@, i as int),
        decreases i,
    {
        let k = i - 1;
        assert(decreases_to!(options@ => options@[k as int]));
        let ok = options[k].condition.is_well_formed() && options[k].value.is_well_formed();
        if !ok {
            proof {
                if options_well_formed(options@, 0) {
                    crate::eval::lemma_options_well_formed(options@, 0);
                }
            }
            return false;
        }
        i = k;
    }
    true
}

/// Whether every item of a set is well formed.
pub fn items_are_well_formed(items: &Vec<SpannedExpr>) -> (r: bool)
    ensures
        r == items_well_formed(items@, 0),
    decreases items@, 1int,
{
    let mut i: usize = items.len();
    while i > 0
        invariant
            i <= items@.len(),
            items_well_formed(items@, i as int),
        decreases i,
    {
        let k = i - 1;
        assert(decreases_to!(items@ => items@[k as int]));
        if !items[k].is_well_formed() {
            proof {
                if items_well_formed(items@, 0) {
                    crate::eval::lemma_items_well_formed(items@, 0);
                }
            }
            return false;
        }
        i = k;
    }
    true
}

impl Clone for SpannedExpr {
    fn clone(&self) -> (r: SpannedExpr)
        ensures
            r.same_as(*self),
            r.span == self.span,
    {
        self.copy()
    }
}

impl Clone for MuxOption {
    fn clone(&self) -> (r: MuxOption)
        ensures
            r.condition.same_as(self.condition),
            r.value.same_as(self.value),
            r.condition.span == self.condition.span,
            r.value.span == self.value.span,
    {
        MuxOption { condition: self.condition.copy(), value: self.value.copy() }
    }
}

/// The options from `i` on are the same trees, and there are as many.
pub open spec fn same_options(a: Seq<MuxOption>, b: Seq<MuxOption>, i: int) -> bool
    decreases a, a.len() - i,
{
    if i < 0 || i >= a.len() {
        a.len() == b.len()
    } else {
        i < b.len() && a[i].condition.same_as(b[i].condition) && a[i].value.same_as(b[i].value) && same_options(
            a,
            b,
            i + 1,
        )
    }
}

/// The items from `i` on are the same trees, and there are as many.
pub open spec fn same_items(a: Seq<SpannedExpr>, b: Seq<SpannedExpr>, i: int) -> bool
    decreases a, a.len() - i,
{
    if i < 0 || i >= a.len() {
        a.len() == b.len()
    } else {
        i < b.len() && a[i].same_as(b[i]) && same_items(a, b, i + 1)
    }
}

proof fn lemma_same_options(a: Seq<MuxOption>, b: Seq<MuxOption>, i: int)
    requires
        0 <= i <= a.len(),
        a.len() == b.len(),
        forall|j: int| #![trigger a[j]] 0 <= j < a.len() ==> a[j].condition.same_as(b[j].condition) && a[j].value.same_as(b[j].value),
    ensures
        same_options(a, b, i),
    decreases a.len() - i,
{
    if i < a.len() {
        lemma_same_options(a, b, i + 1);
    }
}

proof fn lemma_same_items(a: Seq<SpannedExpr>, b: Seq<SpannedExpr>, i: int)
    requires
        0 <= i <= a.len(),
        a.len() == b.len(),
        forall|j: int| #![trigger a[j]] 0 <= j < a.len() ==> a[j].same_as(b[j]),
    ensures
        same_items(a, b, i),
    decreases a.len() - i,
{
    if i < a.len() {
        lemma_same_items(a, b, i + 1);
    }
}

pub open spec fn options_well_formed(options: Seq<MuxOption>, i: int) -> bool
    decreases options, options.len() - i,
{
    if i < 0 || i >= options.len() {
        true
    } else {
        options[i].condition.well_formed() && options[i].value.well_formed()
            && options_well_formed(options, i + 1)
    }
}

pub open spec fn items_well_formed(items: Seq<SpannedExpr>, i: int) -> bool
    decreases items, items.len() - i,
{
    if i < 0 || i >= items.len() {
        true
    } else {
        items[i].well_formed() && items_well_formed(items, i + 1)
    }
}

/// Copies of the options of a mux: the same trees.
pub fn copy_options(options: &Vec<MuxOption>) -> (r: Vec<MuxOption>)
    ensures
        same_options(r@, options@, 0),
        r@.len() == options@.len(),
        forall|i: int| #![trigger r@[i]] 0 <= i < r@.len() ==> r@[i].condition.span == options@[i].condition.span
            && r@[i].value.span == options@[i].value.span,
        options_well_formed(r@, 0) == options_well_formed(options@, 0),
        crate::refs::spec_refs_options(r@, 0) == crate::refs::spec_refs_options(options@, 0),
    decreases options@, 1int,
{
    let mut r: Vec<MuxOption> = Vec::new();
    let mut i: usize = 0;
    while i < options.len()
        invariant
            i <= options@.len(),
            r@.len() == i,
            forall|j: int| #![trigger r@[j]] 0 <= j < i ==> r@[j].condition.span == options@[j].condition.span
                && r@[j].value.span == options@[j].value.span
                && r@[j].condition.same_as(options@[j].condition) && r@[j].value.same_as(options@[j].value)
                && r@[j].condition.well_formed() == options@[j].condition.well_formed()
                && r@[j].value.well_formed() == options@[j].value.well_formed()
                && crate::refs::spec_refs(r@[j].condition) == crate::refs::spec_refs(options@[j].condition)
                && crate::refs::spec_refs(r@[j].value) == crate::refs::spec_refs(options@[j].value),
        decreases options@.len() - i,
    {
        let c = options[i].condition.copy();
        let v = options[i].value.copy();
        r.push(MuxOption { condition: c, value: v });
        i = i + 1;
    }
    proof {
        lemma_options_well_formed_same(r@, options@, 0);
        lemma_refs_options_same(r@, options@, 0);
        lemma_same_options(r@, options@, 0);
    }
    r
}

proof fn lemma_refs_options_same(a: Seq<MuxOption>, b: Seq<MuxOption>, i: int)
    requires
        a.len() == b.len(),
        forall|j: int|
            #![trigger a[j]]
            0 <= j < a.len() ==> crate::refs::spec_refs(a[j].condition) == crate::refs::spec_refs(b[j].condition)
                && crate::refs::spec_refs(a[j].value) == crate::refs::spec_refs(b[j].value),
    ensures
        crate::refs::spec_refs_options(a, i) == crate::refs::spec_refs_options(b, i),
    decreases a.len() - i,
{
    if 0 <= i < a.len() {
        lemma_refs_options_same(a, b, i + 1);
    }
}

proof fn lemma_refs_items_same(a: Seq<SpannedExpr>, b: Seq<SpannedExpr>, i: int)
    requires
        a.len() == b.len(),
        forall|j: int| #![trigger a[j]] 0 <= j < a.len() ==> crate::refs::spec_refs(a[j]) == crate::refs::spec_refs(b[j]),
    ensures
        crate::refs::spec_refs_items(a, i) == crate::refs::spec_refs_items(b, i),
    decreases a.len() - i,
{
    if 0 <= i < a.len() {
        lemma_refs_items_same(a, b, i + 1);
    }
}

proof fn lemma_options_well_formed_same(a: Seq<MuxOption>, b: Seq<MuxOption>, i: int)
    requires
        a.len() == b.len(),
        forall|j: int| #![trigger a[j]] 0 <= j < a.len() ==> a[j].condition.well_formed() == b[j].condition.well_formed()
            && a[j].value.well_formed() == b[j].value.well_formed(),
    ensures
        options_well_formed(a, i) == options_well_formed(b, i),
    decreases a.len() - i,
{
    if 0 <= i < a.len() {
        lemma_options_well_formed_same(a, b, i + 1);
    }
}

/// Copies of the items of a set: the same trees.
pub fn copy_items(items: &Vec<SpannedExpr>) -> (r: Vec<SpannedExpr>)
    ensures
        same_items(r@, items@, 0),
        r@.len() == items@.len(),
        forall|i: int| 0 <= i < r@.len() ==> #[trigger] r@[i].span == items@[i].span,
        items_well_formed(r@, 0) == items_well_formed(items@, 0),
        crate::refs::spec_refs_items(r@, 0) == crate::refs::spec_refs_items(items@, 0),
    decreases items@, 1int,
{
    let mut r: Vec<SpannedExpr> = Vec::new();
    let mut i: usize = 0;
    while i < items.len()
        invariant
            i <= items@.len(),
            r@.len() == i,
            forall|j: int| #![trigger r@[j]] 0 <= j < i ==> r@[j].span == items@[j].span && r@[j].same_as(items@[j])
                && r@[j].well_formed() == items@[j].well_formed()
                && crate::refs::spec_refs(r@[j]) == crate::refs::spec_refs(items@[j]),
        decreases items@.len() - i,
    {
        r.push(items[i].copy());
        i = i + 1;
    }
    proof {
        lemma_items_well_formed_same(r@, items@, 0);
        lemma_refs_items_same(r@, items@, 0);
        lemma_same_items(r@, items@, 0);
    }
    r
}

proof fn lemma_items_well_formed_same(a: Seq<SpannedExpr>, b: Seq<SpannedExpr>, i: int)
    requires
        a.len() == b.len(),
        forall|j: int| #![trigger a[j]] 0 <= j < a.len() ==> a[j].well_formed() == b[j].well_formed(),
    ensures
        items_well_formed(a, i) == items_well_formed(b, i),
    decreases a.len() - i,
{
    if 0 <= i < a.len() {
        lemma_items_well_formed_same(a, b, i + 1);
    }
}

/// An assignment of an expression to one or more wires.
#[derive(Debug, PartialEq, Eq)]
pub struct Assignment {
    pub span: Span,
    pub names: Vec<(String, Span)>,
    pub value: SpannedExpr,
}

/// A register in a register bank, with its width and default value.
#[derive(Debug, PartialEq, Eq)]
pub struct RegisterDecl {
    pub span: Span,
    pub name: String,
    pub width: WireWidth,
    pub default: SpannedExpr,
}

/// A bank of registers; its two-letter name gives the prefixes of its input and output wires.
#[derive(Debug, PartialEq, Eq)]
pub struct RegisterBankDecl {
    pub span: Span,
    pub name: String,
    pub name_span: Span,
    pub registers: Vec<RegisterDecl>,
}

#[derive(Debug, PartialEq, Eq)]
pub enum Statement {
    ConstDecls(Vec<ConstDecl>),
    WireDecls(Vec<WireDecl>),
    Assignments(Vec<Assignment>),
    RegisterBankDecl(RegisterBankDecl),
    Error,
}


/// What each comparison and logical operator means on raw values: it gives 1 exactly
/// when its relation holds, and 0 otherwise.
pub proof fn law_comparisons(x: u128, y: u128)
    ensures
        BinOpCode::Equal.spec_apply_raw(x, y) == (if x == y { 1u128 } else { 0u128 }),
        BinOpCode::NotEqual.spec_apply_raw(x, y) == (if x != y { 1u128 } else { 0u128 }),
        BinOpCode::LessEqual.spec_apply_raw(x, y) == (if x <= y { 1u128 } else { 0u128 }),
        BinOpCode::GreaterEqual.spec_apply_raw(x, y) == (if x >= y { 1u128 } else { 0u128 }),
        BinOpCode::Less.spec_apply_raw(x, y) == (if x < y { 1u128 } else { 0u128 }),
        BinOpCode::Greater.spec_apply_raw(x, y) == (if x > y { 1u128 } else { 0u128 }),
        BinOpCode::LogicalAnd.spec_apply_raw(x, y) == (if x != 0 && y != 0 { 1u128 } else { 0u128 }),
        BinOpCode::LogicalOr.spec_apply_raw(x, y) == (if x != 0 || y != 0 { 1u128 } else { 0u128 }),
        BinOpCode::GreaterEqual.spec_apply_raw(x, x) == 1,
        BinOpCode::LessEqual.spec_apply_raw(x, x) == 1,
        BinOpCode::Less.spec_apply_raw(x, x) == 0,
        BinOpCode::Greater.spec_apply_raw(x, x) == 0,
{
}

/// What the arithmetic operators mean on raw values, modulo 2^128: the sum and the
/// product wrap around, the difference added back to the right operand gives the left
/// one, and division rounds down.
pub proof fn law_arithmetic(x: u128, y: u128)
    ensures
        BinOpCode::Add.spec_apply_raw(x, y) as int == if x + y < two_128() { x + y } else { x + y - two_128() },
        (BinOpCode::Sub.spec_apply_raw(x, y) + y) % two_128() == x as int,
        BinOpCode::Mul.spec_apply_raw(x, y) as int == (x * y) % two_128(),
        y != 0 ==> BinOpCode::Div.spec_apply_raw(x, y) * y <= x < (BinOpCode::Div.spec_apply_raw(x, y) + 1) * y,
        UnOpCode::Plus.spec_apply_raw(x) == x,
        (UnOpCode::Negate.spec_apply_raw(x) + x) % two_128() == 0,
        UnOpCode::Not.spec_apply_raw(x) == (if x == 0 { 1u128 } else { 0u128 }),
{
    let t = two_128();
    assert(t == 0x1_0000_0000_0000_0000_0000_0000_0000_0000);
    if x + y >= t {
        vstd::arithmetic::div_mod::lemma_fundamental_div_mod_converse(x + y, t, 1, x + y - t);
    } else {
        vstd::arithmetic::div_mod::lemma_fundamental_div_mod_converse(x + y, t, 0, x + y);
    }
    let d = x - y + t;
    if d >= t {
        vstd::arithmetic::div_mod::lemma_fundamental_div_mod_converse(d, t, 1, d - t);
        assert(BinOpCode::Sub.spec_apply_raw(x, y) as int == x - y);
        vstd::arithmetic::div_mod::lemma_fundamental_div_mod_converse(x as int, t, 0, x as int);
    } else {
        vstd::arithmetic::div_mod::lemma_fundamental_div_mod_converse(d, t, 0, d);
        assert(BinOpCode::Sub.spec_apply_raw(x, y) as int == x - y + t);
        vstd::arithmetic::div_mod::lemma_fundamental_div_mod_converse(x + t, t, 1, x as int);
    }
    if y != 0 {
        let q = x / y;
        vstd::arithmetic::div_mod::lemma_fundamental_div_mod(x as int, y as int);
        assert(q * y <= x < (q + 1) * y) by (nonlinear_arith)
            requires
                x == y * q + x % y,
                0 <= x % y < y,
                q == x / y,
        ;
    }
    if x == 0 {
        vstd::arithmetic::div_mod::lemma_fundamental_div_mod_converse(t - x, t, 1, 0);
        vstd::arithmetic::div_mod::lemma_fundamental_div_mod_converse(0, t, 0, 0);
    } else {
        vstd::arithmetic::div_mod::lemma_fundamental_div_mod_converse(t - x, t, 0, t - x);
        vstd::arithmetic::div_mod::lemma_fundamental_div_mod_converse(t, t, 1, 0);
    }
}

/// Of two bit widths the wider is taken, never the narrower; a width that is not
/// limited gives way to the other one.
pub proof fn law_max_width(s: u8, t: u8, w: WireWidth)
    ensures
        WireWidth::Bits(s).spec_max(WireWidth::Bits(t)) == WireWidth::Bits(if s >= t { s } else { t }),
        WireWidth::Unlimited.spec_max(w) == w,
        w.spec_max(WireWidth::Unlimited) == w,
{
}

/// Without strict binary widths, `+`, `-`, `*` and `/` on values of bit widths `s` and
/// `t` give a value as wide as the wider of the two, and a comparison one bit.
pub proof fn law_arithmetic_width(op: BinOpCode, s: u8, t: u8)
    ensures
        (op == BinOpCode::Add || op == BinOpCode::Sub || op == BinOpCode::Mul || op == BinOpCode::Div)
            ==> op.spec_result_width(WireWidth::Bits(s), WireWidth::Bits(t)) == Some(
            WireWidth::Bits(if s >= t { s } else { t }),
        ),
        (op == BinOpCode::Equal || op == BinOpCode::NotEqual || op == BinOpCode::Less || op == BinOpCode::LessEqual
            || op == BinOpCode::Greater || op == BinOpCode::GreaterEqual) ==> op.spec_result_width(
            WireWidth::Bits(s),
            WireWidth::Bits(t),
        ) == Some(WireWidth::Bits(1)),
{
}


/// The bitwise operators and shifts on raw values: `&`, `|` and `^` act bit by bit, a
/// shift by fewer than 128 places is the machine shift, and a longer one gives 0;
/// complement flips every bit.
pub proof fn law_bitwise(x: u128, y: u128)
    ensures
        BinOpCode::And.spec_apply_raw(x, y) == x & y,
        BinOpCode::Or.spec_apply_raw(x, y) == x | y,
        BinOpCode::Xor.spec_apply_raw(x, y) == x ^ y,
        BinOpCode::LeftShift.spec_apply_raw(x, y) == (if y < 128 { x << y } else { 0u128 }),
        BinOpCode::RightShift.spec_apply_raw(x, y) == (if y < 128 { x >> y } else { 0u128 }),
        UnOpCode::Complement.spec_apply_raw(x) == !x,
        BinOpCode::And.spec_apply_raw(x, x) == x,
        BinOpCode::Xor.spec_apply_raw(x, x) == 0,
{
    assert(x & x == x) by (bit_vector);
    assert(x ^ x == 0) by (bit_vector);
}


/// Cutting a value to `w` bits (1 to 127) keeps its low `w` bits and clears the rest.
pub proof fn law_as_width(v: WireValue, w: u8, k: u8)
    requires
        1 <= w <= 127,
        k < 128,
    ensures
        v.spec_as_width(WireWidth::Bits(w)).width == WireWidth::Bits(w),
        k < w ==> (v.spec_as_width(WireWidth::Bits(w)).bits >> (k as u128)) & 1 == (v.bits >> (k as u128)) & 1,
        v.spec_as_width(WireWidth::Bits(w)).bits >> (w as u128) == 0,
        v.spec_as_width(WireWidth::Unlimited).bits == v.bits,
{
    let x = v.bits;
    let ww = w as u128;
    let kk = k as u128;
    assert(low_mask(w) == u128::MAX >> ((128 - w) as u128));
    assert(kk < ww ==> ((x & (u128::MAX >> ((128 - ww) as u128))) >> kk) & 1 == (x >> kk) & 1) by (bit_vector)
        requires
            1 <= ww <= 127,
            kk < 128,
    ;
    assert((x & (u128::MAX >> ((128 - ww) as u128))) >> ww == 0) by (bit_vector)
        requires
            1 <= ww <= 127,
    ;
    assert(x & u128::MAX == x) by (bit_vector);
}

} // verus!
