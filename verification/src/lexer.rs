//! Splitting the source text into tokens.
use vstd::prelude::*;
use crate::ast::{Loc, WireValue, WireWidth};
use crate::errors::Error;
use crate::text::chars_of;

verus! {

/// `char::is_whitespace`: the character has the Unicode White_Space property.
pub uninterp spec fn char_is_whitespace(c: char) -> bool;

/// `char::is_alphabetic`: the character has the Unicode Alphabetic property.
pub uninterp spec fn char_is_alphabetic(c: char) -> bool;

/// `char::is_alphanumeric`: the character is alphabetic or numeric in Unicode.
pub uninterp spec fn char_is_alphanumeric(c: char) -> bool;

/// Whether a character is white space (`char::is_whitespace`); the ASCII space,
/// tab, line feed and carriage return are.
#[verifier::external_body]
pub fn is_whitespace(c: char) -> (r: bool)
    ensures
        r == char_is_whitespace(c),
        (c == ' ' || c == '\t' || c == '\n' || c == '\r') ==> r,
{
    c.is_whitespace()
}

/// Whether a character is alphabetic (`char::is_alphabetic`); ASCII letters are,
/// ASCII digits are not.
#[verifier::external_body]
pub fn is_alphabetic(c: char) -> (r: bool)
    ensures
        r == char_is_alphabetic(c),
        ('a' <= c <= 'z' || 'A' <= c <= 'Z') ==> r,
        ('0' <= c <= '9') ==> !r,
{
    c.is_alphabetic()
}

/// Whether a character is alphanumeric (`char::is_alphanumeric`); ASCII letters
/// and digits are.
#[verifier::external_body]
pub fn is_alphanumeric(c: char) -> (r: bool)
    ensures
        r == char_is_alphanumeric(c),
        ('a' <= c <= 'z' || 'A' <= c <= 'Z' || '0' <= c <= '9') ==> r,
{
    c.is_alphanumeric()
}

/// `char::is_lowercase`: the character has the Unicode Lowercase property.
pub uninterp spec fn char_is_lowercase(c: char) -> bool;

/// `char::is_uppercase`: the character has the Unicode Uppercase property.
pub uninterp spec fn char_is_uppercase(c: char) -> bool;

/// Whether a character is lowercase (`char::is_lowercase`); ASCII lowercase letters are.
#[verifier::external_body]
pub fn is_lowercase(c: char) -> (r: bool)
    ensures
        r == char_is_lowercase(c),
        ('a' <= c <= 'z') ==> r,
{
    c.is_lowercase()
}

/// Whether a character is uppercase (`char::is_uppercase`); ASCII uppercase letters are.
#[verifier::external_body]
pub fn is_uppercase(c: char) -> (r: bool)
    ensures
        r == char_is_uppercase(c),
        ('A' <= c <= 'Z') ==> r,
{
    c.is_uppercase()
}

pub open spec fn spec_is_identifier_char(c: char) -> bool {
    char_is_alphanumeric(c) || c == '_'
}

pub open spec fn spec_is_start_identifier_char(c: char) -> bool {
    char_is_alphabetic(c) || c == '_'
}

pub open spec fn spec_is_hexadecimal_char(c: char) -> bool {
    ('0' <= c && c <= '9') || ('a' <= c && c <= 'f') || ('A' <= c && c <= 'F')
}

pub open spec fn spec_is_decimal_char(c: char) -> bool {
    '0' <= c && c <= '9'
}

pub open spec fn spec_is_binary_char(c: char) -> bool {
    '0' <= c && c <= '1'
}

pub open spec fn spec_is_not_newline(c: char) -> bool {
    c != '\n' && c != '\r'
}

pub fn is_identifier_char(c: char) -> (r: bool)
    ensures
        r == spec_is_identifier_char(c),
{
    is_alphanumeric(c) || c == '_'
}

pub fn is_start_identifier_char(c: char) -> (r: bool)
    ensures
        r == spec_is_start_identifier_char(c),
{
    is_alphabetic(c) || c == '_'
}

pub fn is_hexadecimal_char(c: char) -> (r: bool)
    ensures
        r == spec_is_hexadecimal_char(c),
{
    (c >= '0' && c <= '9') || (c >= 'a' && c <= 'f') || (c >= 'A' && c <= 'F')
}

pub fn is_decimal_char(c: char) -> (r: bool)
    ensures
        r == spec_is_decimal_char(c),
{
    c >= '0' && c <= '9'
}

pub fn is_binary_char(c: char) -> (r: bool)
    ensures
        r == spec_is_binary_char(c),
{
    c >= '0' && c <= '1'
}

pub fn is_not_newline(c: char) -> (r: bool)
    ensures
        r == spec_is_not_newline(c),
{
    c != '\n' && c != '\r'
}

pub fn is_not_star(c: char) -> (r: bool)
    ensures
        r == (c != '*'),
{
    c != '*'
}

/// The value of a digit character in a base up to 16.
pub open spec fn digit_value(c: char) -> nat {
    if '0' <= c && c <= '9' {
        (c as nat - '0' as nat) as nat
    } else if 'a' <= c && c <= 'f' {
        (c as nat - 'a' as nat + 10) as nat
    } else if 'A' <= c && c <= 'F' {
        (c as nat - 'A' as nat + 10) as nat
    } else {
        0
    }
}

/// The number that a sequence of digits writes in a base.
pub open spec fn digits_value(digits: Seq<char>, base: nat) -> nat
    decreases digits.len(),
{
    if digits.len() == 0 {
        0
    } else {
        digits_value(digits.drop_last(), base) * base + digit_value(digits.last())
    }
}

proof fn lemma_digits_value_monotone(digits: Seq<char>, base: nat, i: int)
    requires
        base >= 1,
        0 <= i <= digits.len(),
    ensures
        digits_value(digits.subrange(0, i), base) <= digits_value(digits, base),
    decreases digits.len() - i,
{
    if i < digits.len() {
        lemma_digits_value_monotone(digits, base, i + 1);
        let s = digits.subrange(0, i + 1);
        assert(s.drop_last() == digits.subrange(0, i));
        let v = digits_value(digits.subrange(0, i), base);
        assert(v * base >= v) by (nonlinear_arith)
            requires
                base >= 1,
        ;
    } else {
        assert(digits.subrange(0, i) == digits);
    }
}

/// The value of digits in a base, or `None` if it does not fit in 128 bits.
pub fn parse_digits(digits: &[char], base: u128) -> (r: Option<u128>)
    requires
        2 <= base <= 16,
    ensures
        match r {
            Some(v) => v == digits_value(digits@, base as nat),
            None => digits_value(digits@, base as nat) > u128::MAX,
        },
{
    let mut value: u128 = 0;
    let mut i: usize = 0;
    while i < digits.len()
        invariant
            2 <= base <= 16,
            i <= digits@.len(),
            value == digits_value(digits@.subrange(0, i as int), base as nat),
        decreases digits@.len() - i,
    {
        let c = digits[i];
        let d: u128 = if c >= '0' && c <= '9' {
            (c as u32 - '0' as u32) as u128
        } else if c >= 'a' && c <= 'f' {
            (c as u32 - 'a' as u32 + 10) as u128
        } else if c >= 'A' && c <= 'F' {
            (c as u32 - 'A' as u32 + 10) as u128
        } else {
            0
        };
        proof {
            let s = digits@.subrange(0, i + 1);
            assert(s.drop_last() == digits@.subrange(0, i as int));
            assert(s.last() == c);
            assert(d == digit_value(c));
        }
        let m = value.checked_mul(base);
        match m {
            None => {
                proof {
                    lemma_digits_value_monotone(digits@, base as nat, i + 1);
                }
                return None;
            },
            Some(mv) => match mv.checked_add(d) {
                None => {
                    proof {
                        lemma_digits_value_monotone(digits@, base as nat, i + 1);
                    }
                    return None;
                },
                Some(nv) => {
                    value = nv;
                },
            },
        }
        i = i + 1;
    }
    assert(digits@.subrange(0, digits@.len() as int) == digits@);
    Some(value)
}

#[derive(Debug)]
pub enum Tok {
    AndAnd,
    OrOr,
    Equal,
    NotEqual,
    GreaterEqual,
    Greater,
    LessEqual,
    Less,
    Assign,
    RightShift,
    LeftShift,
    Comma,
    Semicolon,
    Plus,
    Minus,
    And,
    Or,
    Xor,
    Times,
    Divide,
    Not,
    Constant(WireValue),
    OpenParen,
    CloseParen,
    OpenBrace,
    CloseBrace,
    OpenBracket,
    CloseBracket,
    Colon,
    Complement,
    DotDot,
    Wire,
    Const,
    Register,
    In,
    Identifier(String),
}

/// The text that a token of fixed spelling is written with.
pub open spec fn fixed_text(t: Tok) -> Option<Seq<char>> {
    match t {
        Tok::AndAnd => Some(seq!['&', '&']),
        Tok::OrOr => Some(seq!['|', '|']),
        Tok::Equal => Some(seq!['=', '=']),
        Tok::NotEqual => Some(seq!['!', '=']),
        Tok::GreaterEqual => Some(seq!['>', '=']),
        Tok::Greater => Some(seq!['>']),
        Tok::LessEqual => Some(seq!['<', '=']),
        Tok::Less => Some(seq!['<']),
        Tok::Assign => Some(seq!['=']),
        Tok::RightShift => Some(seq!['>', '>']),
        Tok::LeftShift => Some(seq!['<', '<']),
        Tok::Comma => Some(seq![',']),
        Tok::Semicolon => Some(seq![';']),
        Tok::Plus => Some(seq!['+']),
        Tok::Minus => Some(seq!['-']),
        Tok::And => Some(seq!['&']),
        Tok::Or => Some(seq!['|']),
        Tok::Xor => Some(seq!['^']),
        Tok::Times => Some(seq!['*']),
        Tok::Divide => Some(seq!['/']),
        Tok::Not => Some(seq!['!']),
        Tok::OpenParen => Some(seq!['(']),
        Tok::CloseParen => Some(seq![')']),
        Tok::OpenBrace => Some(seq!['{']),
        Tok::CloseBrace => Some(seq!['}']),
        Tok::OpenBracket => Some(seq!['[']),
        Tok::CloseBracket => Some(seq![']']),
        Tok::Colon => Some(seq![':']),
        Tok::Complement => Some(seq!['~']),
        Tok::DotDot => Some(seq!['.', '.']),
        Tok::Wire => Some(seq!['w', 'i', 'r', 'e']),
        Tok::Const => Some(seq!['c', 'o', 'n', 's', 't']),
        Tok::Register => Some(seq!['r', 'e', 'g', 'i', 's', 't', 'e', 'r']),
        Tok::In => Some(seq!['i', 'n']),
        Tok::Constant(_) => None,
        Tok::Identifier(_) => None,
    }
}

pub open spec fn is_keyword(text: Seq<char>) -> bool {
    text == seq!['w', 'i', 'r', 'e'] || text == seq!['c', 'o', 'n', 's', 't'] || text == seq![
        'r',
        'e',
        'g',
        'i',
        's',
        't',
        'e',
        'r',
    ] || text == seq!['i', 'n']
}

/// A token is written with the given text.
pub open spec fn tok_written_as(t: Tok, text: Seq<char>) -> bool {
    match t {
        Tok::Identifier(name) => {
            &&& name@ == text
            &&& text.len() > 0
            &&& spec_is_start_identifier_char(text[0])
            &&& forall|i: int| 1 <= i < text.len() ==> #[trigger] spec_is_identifier_char(text[i])
            &&& !is_keyword(text)
        },
        Tok::Constant(v) => constant_written_as(v, text),
        _ => fixed_text(t) == Some(text),
    }
}

/// A constant is written as decimal digits; or as a digit, `x` and hexadecimal
/// digits; or as a digit, `b` and binary digits, whose number gives its width.
pub open spec fn constant_written_as(v: WireValue, text: Seq<char>) -> bool {
    ||| {
        &&& text.len() > 0
        &&& forall|i: int| 0 <= i < text.len() ==> #[trigger] spec_is_decimal_char(text[i])
        &&& v == WireValue { bits: digits_value(text, 10) as u128, width: WireWidth::Unlimited }
        &&& digits_value(text, 10) <= u128::MAX
    }
    ||| {
        &&& text.len() > 2
        &&& spec_is_decimal_char(text[0])
        &&& text[1] == 'x'
        &&& forall|i: int| 2 <= i < text.len() ==> #[trigger] spec_is_hexadecimal_char(text[i])
        &&& v == WireValue { bits: digits_value(text.skip(2), 16) as u128, width: WireWidth::Unlimited }
        &&& digits_value(text.skip(2), 16) <= u128::MAX
    }
    ||| {
        &&& 2 < text.len() <= 130
        &&& spec_is_decimal_char(text[0])
        &&& text[1] == 'b'
        &&& forall|i: int| 2 <= i < text.len() ==> #[trigger] spec_is_binary_char(text[i])
        &&& v == WireValue {
            bits: digits_value(text.skip(2), 2) as u128,
            width: WireWidth::Bits((text.len() - 2) as u8),
        }
        &&& digits_value(text.skip(2), 2) <= u128::MAX
    }
}

impl Tok {
    /// A number for each kind of token.
    pub open spec fn spec_tag(self) -> u8 {
        match self {
            Tok::AndAnd => 0,
            Tok::OrOr => 1,
            Tok::Equal => 2,
            Tok::NotEqual => 3,
            Tok::GreaterEqual => 4,
            Tok::Greater => 5,
            Tok::LessEqual => 6,
            Tok::Less => 7,
            Tok::Assign => 8,
            Tok::RightShift => 9,
            Tok::LeftShift => 10,
            Tok::Comma => 11,
            Tok::Semicolon => 12,
            Tok::Plus => 13,
            Tok::Minus => 14,
            Tok::And => 15,
            Tok::Or => 16,
            Tok::Xor => 17,
            Tok::Times => 18,
            Tok::Divide => 19,
            Tok::Not => 20,
            Tok::Constant(_) => 21,
            Tok::OpenParen => 22,
            Tok::CloseParen => 23,
            Tok::OpenBrace => 24,
            Tok::CloseBrace => 25,
            Tok::OpenBracket => 26,
            Tok::CloseBracket => 27,
            Tok::Colon => 28,
            Tok::Complement => 29,
            Tok::DotDot => 30,
            Tok::Wire => 31,
            Tok::Const => 32,
            Tok::Register => 33,
            Tok::In => 34,
            Tok::Identifier(_) => 35,
        }
    }

    pub fn tag(&self) -> (r: u8)
        ensures
            r == self.spec_tag(),
    {
        match self {
            Tok::AndAnd => 0,
            Tok::OrOr => 1,
            Tok::Equal => 2,
            Tok::NotEqual => 3,
            Tok::GreaterEqual => 4,
            Tok::Greater => 5,
            Tok::LessEqual => 6,
            Tok::Less => 7,
            Tok::Assign => 8,
            Tok::RightShift => 9,
            Tok::LeftShift => 10,
            Tok::Comma => 11,
            Tok::Semicolon => 12,
            Tok::Plus => 13,
            Tok::Minus => 14,
            Tok::And => 15,
            Tok::Or => 16,
            Tok::Xor => 17,
            Tok::Times => 18,
            Tok::Divide => 19,
            Tok::Not => 20,
            Tok::Constant(_) => 21,
            Tok::OpenParen => 22,
            Tok::CloseParen => 23,
            Tok::OpenBrace => 24,
            Tok::CloseBrace => 25,
            Tok::OpenBracket => 26,
            Tok::CloseBracket => 27,
            Tok::Colon => 28,
            Tok::Complement => 29,
            Tok::DotDot => 30,
            Tok::Wire => 31,
            Tok::Const => 32,
            Tok::Register => 33,
            Tok::In => 34,
            Tok::Identifier(_) => 35,
        }
    }

    pub open spec fn spec_same(self, other: Tok) -> bool {
        match (self, other) {
            (Tok::Identifier(a), Tok::Identifier(b)) => a@ == b@,
            (Tok::Constant(a), Tok::Constant(b)) => a == b,
            _ => self.spec_tag() == other.spec_tag(),
        }
    }
}

impl PartialEq for Tok {
    fn eq(&self, other: &Tok) -> (r: bool) {
        match (self, other) {
            (Tok::Identifier(a), Tok::Identifier(b)) => crate::wires::str_eq(a.as_str(), b.as_str()),
            (Tok::Constant(a), Tok::Constant(b)) => *a == *b,
            _ => self.tag() == other.tag(),
        }
    }
}

impl vstd::std_specs::cmp::PartialEqSpecImpl for Tok {
    open spec fn obeys_eq_spec() -> bool {
        true
    }

    open spec fn eq_spec(&self, other: &Tok) -> bool {
        self.spec_same(*other)
    }
}

/// A token with the positions where its text starts and ends, or a lexical error.
pub type Spanned = Result<(usize, Tok, usize), Error>;

/// Splits source text into tokens; positions count characters from the start of the text.
pub struct Lexer {
    chars: Vec<char>,
    pos: usize,
}

impl Lexer {
    /// The text being read.
    pub closed spec fn text(self) -> Seq<char> {
        self.chars@
    }

    /// The position of the next character to read.
    pub closed spec fn position(self) -> nat {
        self.pos as nat
    }

    pub fn new(input: &str) -> (r: Lexer)
        ensures
            r.wf(),
            r.text() == input@,
            r.position() == 0,
    {
        Lexer { chars: chars_of(input), pos: 0 }
    }

    pub fn new_for_file(input: &crate::io::FileContents) -> (r: Lexer)
        ensures
            r.wf(),
            r.text() == input.text(),
            r.position() == 0,
    {
        Lexer { chars: input.chars().clone(), pos: 0 }
    }

    fn peek_char(&self) -> (r: Option<char>)
        ensures
            match r {
                Some(c) => self.pos < self.chars@.len() && c == self.chars@[self.pos as int],
                None => self.pos >= self.chars@.len(),
            },
    {
        if self.pos < self.chars.len() {
            Some(self.chars[self.pos])
        } else {
            None
        }
    }

    /// The text between two positions.
    pub fn extract(&self, start: usize, end: usize) -> (r: String)
        requires
            start <= end <= self.text().len(),
        ensures
            r@ == self.text().subrange(start as int, end as int),
    {
        crate::text::string_from_chars(slice_of(&self.chars, start, end).as_slice())
    }
}

/// The characters between two positions.
pub fn slice_of(v: &Vec<char>, start: usize, end: usize) -> (r: Vec<char>)
    requires
        start <= end <= v@.len(),
    ensures
        r@ == v@.subrange(start as int, end as int),
{
    let mut r: Vec<char> = Vec::new();
    let mut i = start;
    while i < end
        invariant
            start <= i <= end <= v@.len(),
            r@ == v@.subrange(start as int, i as int),
        decreases end - i,
    {
        r.push(v[i]);
        i = i + 1;
        assert(r@ =~= v@.subrange(start as int, i as int));
    }
    r
}

/// Classes of characters that the lexer reads runs of.
#[derive(Clone, Copy, PartialEq, Eq, Structural)]
pub enum CharClass {
    Identifier,
    Hexadecimal,
    Decimal,
    Binary,
    NotNewline,
    NotStar,
}

pub open spec fn in_class(class: CharClass, c: char) -> bool {
    match class {
        CharClass::Identifier => spec_is_identifier_char(c),
        CharClass::Hexadecimal => spec_is_hexadecimal_char(c),
        CharClass::Decimal => spec_is_decimal_char(c),
        CharClass::Binary => spec_is_binary_char(c),
        CharClass::NotNewline => spec_is_not_newline(c),
        CharClass::NotStar => c != '*',
    }
}

/// The characters from `a` up to `k` are of the class, and the one at `k`, if any, is not.
pub open spec fn run_ends_at(text: Seq<char>, class: CharClass, a: int, k: int) -> bool {
    &&& a <= k <= text.len()
    &&& forall|j: int| a <= j < k ==> #[trigger] in_class(class, text[j])
    &&& (k == text.len() || !in_class(class, text[k]))
}

/// Where the run of characters of the class that starts at `a` ends.
pub open spec fn run_end(text: Seq<char>, class: CharClass, a: int) -> int {
    choose|k: int| run_ends_at(text, class, a, k)
}

proof fn lemma_run_end(text: Seq<char>, class: CharClass, a: int, k: int)
    requires
        run_ends_at(text, class, a, k),
    ensures
        run_end(text, class, a) == k,
{
    let k2 = run_end(text, class, a);
    assert(run_ends_at(text, class, a, k2));
    if k2 < k {
        assert(in_class(class, text[k2]));
    } else if k < k2 {
        assert(in_class(class, text[k]));
    }
}

/// The constant whose first digit is at `i` cannot be read: `x` or `b` not followed
/// by a digit of its base; binary digits followed by a decimal digit, or more than
/// 128 of them; or a number that does not fit in 128 bits.
pub open spec fn constant_fails(text: Seq<char>, i: int) -> bool {
    let n = i + 1;
    if n < text.len() && text[n] == 'x' {
        let end = run_end(text, CharClass::Hexadecimal, n + 1);
        n + 1 >= text.len() || !spec_is_hexadecimal_char(text[n + 1]) || digits_value(
            text.subrange(n + 1, end),
            16,
        ) > u128::MAX
    } else if n < text.len() && text[n] == 'b' {
        let end = run_end(text, CharClass::Binary, n + 1);
        n + 1 >= text.len() || !spec_is_binary_char(text[n + 1]) || (end < text.len() && spec_is_decimal_char(
            text[end],
        )) || end - (i + 2) > 128
    } else if n < text.len() && spec_is_decimal_char(text[n]) {
        digits_value(text.subrange(i, run_end(text, CharClass::Decimal, n)), 10) > u128::MAX
    } else {
        false
    }
}

/// The error for a constant that cannot be read (see `constant_fails`): at a missing
/// digit after `x` or `b`, its position (or the largest position at the end of the
/// text); at a decimal digit after binary digits, that digit's position; otherwise the
/// span of the constant.
pub open spec fn constant_error(text: Seq<char>, i: int) -> Error {
    let n = i + 1;
    if n < text.len() && text[n] == 'x' {
        let end = run_end(text, CharClass::Hexadecimal, n + 1);
        if n + 1 >= text.len() {
            Error::LexicalError(usize::MAX)
        } else if !spec_is_hexadecimal_char(text[n + 1]) {
            Error::LexicalError((n + 1) as usize)
        } else {
            Error::InvalidConstant((i as usize, end as usize))
        }
    } else if n < text.len() && text[n] == 'b' {
        let end = run_end(text, CharClass::Binary, n + 1);
        if n + 1 >= text.len() {
            Error::LexicalError(usize::MAX)
        } else if !spec_is_binary_char(text[n + 1]) {
            Error::LexicalError((n + 1) as usize)
        } else if end < text.len() && spec_is_decimal_char(text[end]) {
            Error::LexicalError(end as usize)
        } else {
            Error::InvalidConstant((i as usize, end as usize))
        }
    } else if n < text.len() && spec_is_decimal_char(text[n]) {
        Error::InvalidConstant((i as usize, run_end(text, CharClass::Decimal, n) as usize))
    } else {
        Error::InvalidConstant((i as usize, n as usize))
    }
}

/// Characters `a` up to `b` run to the end of their line: none is a line break, and a
/// line break or the end of the text follows.
pub open spec fn rest_of_line(text: Seq<char>, a: int, b: int) -> bool {
    &&& 0 <= a <= b <= text.len()
    &&& forall|k: int| a <= k < b ==> spec_is_not_newline(#[trigger] text[k])
    &&& (b == text.len() || !spec_is_not_newline(text[b]))
}

/// A `*/` starts at `k`.
pub open spec fn closes_comment(text: Seq<char>, k: int) -> bool {
    0 <= k && k + 1 < text.len() && text[k] == '*' && text[k + 1] == '/'
}

/// `/*` starts at `a`, and the first `*/` that starts after the `/` ends at `b` (so the
/// `*` of the opening may also be the `*` of the closing, as in `/*/`).
pub open spec fn block_comment(text: Seq<char>, a: int, b: int) -> bool {
    &&& 0 <= a && a + 3 <= b <= text.len()
    &&& text[a] == '/' && text[a + 1] == '*'
    &&& closes_comment(text, b - 2)
    &&& forall|k: int| a + 1 <= k < b - 2 ==> !#[trigger] closes_comment(text, k)
}

/// One white space character, or one comment: `#` or `//` to the end of the line, or
/// `/*` to the first `*/`.
pub open spec fn skipped_piece(text: Seq<char>, a: int, b: int) -> bool {
    ||| (0 <= a && b == a + 1 <= text.len() && char_is_whitespace(text[a]))
    ||| (0 <= a < text.len() && text[a] == '#' && rest_of_line(text, a + 1, b))
    ||| (0 <= a && a + 2 <= text.len() && text[a] == '/' && text[a + 1] == '/' && rest_of_line(text, a + 2, b))
    ||| block_comment(text, a, b)
}

/// Characters `a` up to `b` are white space and comments only.
pub open spec fn skipped(text: Seq<char>, a: int, b: int) -> bool {
    exists|pts: Seq<int>|
        #![trigger pts.len(), pts[0]]
        pts.len() >= 1 && pts[0] == a && pts.last() == b && forall|i: int|
            0 <= i < pts.len() - 1 ==> skipped_piece(text, #[trigger] pts[i], pts[i + 1])
}

/// The character after the token, if any, is `c`.
pub open spec fn next_is(text: Seq<char>, e: int, c: char) -> bool {
    0 <= e < text.len() && text[e] == c
}

/// The constant from `s` up to `e` is as long as it can be.
pub open spec fn constant_complete(text: Seq<char>, s: int, e: int) -> bool {
    if e - s >= 2 && text[s + 1] == 'x' {
        !(e < text.len() && spec_is_hexadecimal_char(text[e]))
    } else if e - s >= 2 && text[s + 1] == 'b' {
        !(e < text.len() && spec_is_decimal_char(text[e]))
    } else {
        &&& !(e < text.len() && spec_is_decimal_char(text[e]))
        &&& e == s + 1 ==> !next_is(text, e, 'x') && !next_is(text, e, 'b')
    }
}

/// The token from `s` up to `e` is as long as it can be: no longer token of its kind
/// starts at `s`.
pub open spec fn token_complete(text: Seq<char>, s: int, e: int, t: Tok) -> bool {
    match t {
        Tok::Identifier(_) | Tok::Wire | Tok::Const | Tok::Register | Tok::In => !(e < text.len()
            && spec_is_identifier_char(text[e])),
        Tok::Constant(_) => constant_complete(text, s, e),
        Tok::And => !next_is(text, e, '&'),
        Tok::Or => !next_is(text, e, '|'),
        Tok::Assign => !next_is(text, e, '='),
        Tok::Not => !next_is(text, e, '='),
        Tok::Greater => !next_is(text, e, '=') && !next_is(text, e, '>'),
        Tok::Less => !next_is(text, e, '=') && !next_is(text, e, '<'),
        Tok::Divide => !next_is(text, e, '/') && !next_is(text, e, '*'),
        _ => true,
    }
}

/// A character that begins an operator or punctuation token.
pub open spec fn operator_char(c: char) -> bool {
    c == '&' || c == '|' || c == '=' || c == '!' || c == '>' || c == '<' || c == ':' || c == '~' || c == ','
        || c == ';' || c == '+' || c == '-' || c == '^' || c == '*' || c == '(' || c == ')' || c == '[' || c == ']'
        || c == '{' || c == '}'
}

/// No token, white space or comment starts at `s`: an unknown character, or a `.`
/// that is not followed by another.
pub open spec fn starts_nothing(text: Seq<char>, s: int) -> bool {
    let c = text[s];
    &&& 0 <= s < text.len()
    &&& !char_is_whitespace(c)
    &&& !spec_is_start_identifier_char(c)
    &&& !spec_is_decimal_char(c)
    &&& c != '#'
    &&& c != '/'
    &&& (c == '.' ==> !next_is(text, s + 1, '.'))
    &&& (c != '.' ==> !operator_char(c))
}

/// The error that reading at `s` gives: a comment that is not closed, a constant that
/// cannot be read, or a character that starts nothing.
pub open spec fn lex_fault(text: Seq<char>, s: int, err: Error) -> bool {
    ||| (0 <= s && s + 2 <= text.len() && text[s] == '/' && text[s + 1] == '*' && !char_is_whitespace(text[s])
        && !spec_is_start_identifier_char(text[s]) && (forall|k: int| s + 1 <= k ==> !#[trigger] closes_comment(text, k))
        && err == Error::UnterminatedComment(s as usize))
    ||| (0 <= s < text.len() && spec_is_decimal_char(text[s]) && !char_is_whitespace(text[s])
        && !spec_is_start_identifier_char(text[s]) && constant_fails(text, s) && err == constant_error(text, s))
    ||| (starts_nothing(text, s) && err == Error::LexicalError(s as usize))
}

/// White space and comments extended by one more piece.
pub proof fn lemma_skipped_extend(text: Seq<char>, a: int, m: int, b: int)
    requires
        skipped(text, a, m),
        skipped_piece(text, m, b),
    ensures
        skipped(text, a, b),
{
    let pts = choose|pts: Seq<int>|
        #![trigger pts.len(), pts[0]]
        pts.len() >= 1 && pts[0] == a && pts.last() == m && forall|i: int|
            0 <= i < pts.len() - 1 ==> skipped_piece(text, #[trigger] pts[i], pts[i + 1]);
    let q = pts.push(b);
    assert forall|i: int| 0 <= i < q.len() - 1 implies skipped_piece(text, #[trigger] q[i], q[i + 1]) by {
        if i < pts.len() - 1 {
            assert(q[i] == pts[i] && q[i + 1] == pts[i + 1]);
        }
    }
    assert(q.len() >= 1 && q[0] == a && q.last() == b);
}

/// Nothing skipped.
pub proof fn lemma_skipped_none(text: Seq<char>, a: int)
    ensures
        skipped(text, a, a),
{
    let q = seq![a];
    assert(q.len() >= 1 && q[0] == a && q.last() == a);
}

fn is_in_class(class: CharClass, c: char) -> (r: bool)
    ensures
        r == in_class(class, c),
{
    match class {
        CharClass::Identifier => is_identifier_char(c),
        CharClass::Hexadecimal => is_hexadecimal_char(c),
        CharClass::Decimal => is_decimal_char(c),
        CharClass::Binary => is_binary_char(c),
        CharClass::NotNewline => is_not_newline(c),
        CharClass::NotStar => is_not_star(c),
    }
}

fn fixed_token(start: usize, t: Tok, len: usize) -> (r: Spanned)
    requires
        start + len <= usize::MAX,
    ensures
        r matches Ok((s, t2, e)) && s == start && e == start + len && t2 == t,
{
    Ok((start, t, start + len))
}

impl Lexer {
    pub closed spec fn wf(self) -> bool {
        self.pos <= self.chars@.len()
    }

    /// Moves past the run of characters of a class that starts at the current position.
    fn advance_while(&mut self, class: CharClass)
        requires
            old(self).wf(),
        ensures
            final(self).wf(),
            final(self).chars == old(self).chars,
            old(self).pos <= final(self).pos,
            forall|k: int|
                old(self).pos <= k < final(self).pos ==> #[trigger] in_class(class, final(self).chars@[k]),
            final(self).pos < final(self).chars@.len() ==> !in_class(class, final(self).chars@[final(self).pos as int]),
    {
        while self.pos < self.chars.len() && is_in_class(class, self.chars[self.pos])
            invariant
                self.wf(),
                self.chars == old(self).chars,
                old(self).pos <= self.pos,
                forall|k: int| old(self).pos <= k < self.pos ==> #[trigger] in_class(class, self.chars@[k]),
            decreases self.chars@.len() - self.pos,
        {
            self.pos = self.pos + 1;
        }
    }

    /// Whether the text between two positions is the given literal.
    fn text_is(&self, start: usize, end: usize, lit: &str) -> (r: bool)
        requires
            start <= end <= self.chars@.len(),
        ensures
            r == (self.chars@.subrange(start as int, end as int) == lit@),
    {
        let t = slice_of(&self.chars, start, end);
        let l = chars_of(lit);
        if t.len() != l.len() {
            return false;
        }
        let mut k: usize = 0;
        while k < t.len()
            invariant
                t@ == self.chars@.subrange(start as int, end as int),
                l@ == lit@,
                t@.len() == l@.len(),
                k <= t@.len(),
                forall|j: int| 0 <= j < k ==> t@[j] == l@[j],
            decreases t@.len() - k,
        {
            if t[k] != l[k] {
                return false;
            }
            k = k + 1;
        }
        assert(t@ =~= l@);
        true
    }

    fn resolve_identifier(&self, start: usize, end: usize) -> (r: Tok)
        requires
            start < end <= self.chars@.len(),
        ensures
            r is Identifier || r is Wire || r is Const || r is Register || r is In,
            match r {
                Tok::Identifier(name) => name@ == self.chars@.subrange(start as int, end as int)
                    && !is_keyword(self.chars@.subrange(start as int, end as int)),
                _ => fixed_text(r) == Some(self.chars@.subrange(start as int, end as int)),
            },
    {
        proof {
            reveal_strlit("wire");
            reveal_strlit("const");
            reveal_strlit("register");
            reveal_strlit("in");
            assert("wire"@ =~= seq!['w', 'i', 'r', 'e']);
            assert("const"@ =~= seq!['c', 'o', 'n', 's', 't']);
            assert("register"@ =~= seq!['r', 'e', 'g', 'i', 's', 't', 'e', 'r']);
            assert("in"@ =~= seq!['i', 'n']);
        }
        if self.text_is(start, end, "wire") {
            Tok::Wire
        } else if self.text_is(start, end, "const") {
            Tok::Const
        } else if self.text_is(start, end, "register") {
            Tok::Register
        } else if self.text_is(start, end, "in") {
            Tok::In
        } else {
            Tok::Identifier(self.extract(start, end))
        }
    }

    /// The token that starts with the character just read: the two-character token
    /// when the next character is `second`, and the one-character token otherwise.
    fn choose_token(&mut self, start: usize, default: Tok, second: char, two: Tok) -> (r: Spanned)
        requires
            old(self).wf(),
            start + 1 == old(self).pos,
        ensures
            final(self).wf(),
            final(self).chars == old(self).chars,
            match r {
                Ok((s, t, e)) => s == start && e == final(self).pos && (if e == start + 2 {
                    t == two && final(self).chars@[start + 1] == second
                } else {
                    t == default && e == start + 1 && !next_is(final(self).chars@, e as int, second)
                }),
                Err(_) => false,
            },
    {
        if self.pos < self.chars.len() && self.chars[self.pos] == second {
            self.pos = self.pos + 1;
            fixed_token(start, two, 2)
        } else {
            fixed_token(start, default, 1)
        }
    }

    /// Reads the constant whose first digit was just read.
    fn handle_constant(&mut self, i: usize) -> (r: Spanned)
        requires
            old(self).wf(),
            i + 1 == old(self).pos,
            spec_is_decimal_char(old(self).chars@[i as int]),
        ensures
            final(self).wf(),
            final(self).chars == old(self).chars,
            final(self).pos >= old(self).pos,
            r matches Ok((s, t, e)) ==> s == i && e == final(self).pos && (t matches Tok::Constant(v)
                && constant_written_as(v, final(self).chars@.subrange(s as int, e as int)) && v.valid()),
            r matches Ok((s, t, e)) ==> constant_complete(final(self).chars@, s as int, e as int),
            r is Err <==> constant_fails(old(self).chars@, i as int),
            r matches Err(err) ==> err == constant_error(old(self).chars@, i as int),
    {
        let len = self.chars.len();
        if self.pos < len && self.chars[self.pos] == 'x' {
            self.pos = self.pos + 1;
            if self.pos >= len {
                return Err(Error::LexicalError(usize::MAX));
            }
            if !is_hexadecimal_char(self.chars[self.pos]) {
                let p = self.pos;
                self.pos = self.pos + 1;
                return Err(Error::LexicalError(p));
            }
            let ghost start = self.pos as int;
            self.advance_while(CharClass::Hexadecimal);
            let end = self.pos;
            proof {
                lemma_run_end(self.chars@, CharClass::Hexadecimal, start, end as int);
            }
            let digits = slice_of(&self.chars, i + 2, end);
            match parse_digits(digits.as_slice(), 16) {
                Some(value) => {
                    let v = WireValue::new(value);
                    proof {
                        let text = self.chars@.subrange(i as int, end as int);
                        assert(end > i + 2);
                        assert(text.skip(2) =~= digits@);
                        assert(text[0] == self.chars@[i as int]);
                        assert(text[1] == 'x');
                        assert forall|k: int| 2 <= k < text.len() implies #[trigger] spec_is_hexadecimal_char(text[k]) by {
                            assert(text[k] == self.chars@[i + k]);
                            if k > 2 {
                                assert(in_class(CharClass::Hexadecimal, self.chars@[i + k]));
                            }
                        }
                    }
                    Ok((i, Tok::Constant(v), end))
                },
                None => Err(Error::InvalidConstant((i, end))),
            }
        } else if self.pos < len && self.chars[self.pos] == 'b' {
            self.pos = self.pos + 1;
            if self.pos >= len {
                return Err(Error::LexicalError(usize::MAX));
            }
            if !is_binary_char(self.chars[self.pos]) {
                let p = self.pos;
                self.pos = self.pos + 1;
                return Err(Error::LexicalError(p));
            }
            let ghost start = self.pos as int;
            self.advance_while(CharClass::Binary);
            let end = self.pos;
            proof {
                lemma_run_end(self.chars@, CharClass::Binary, start, end as int);
            }
            if self.pos < len && is_decimal_char(self.chars[self.pos]) {
                let p = self.pos;
                self.pos = self.pos + 1;
                return Err(Error::LexicalError(p));
            }
            if end - (i + 2) > 128 {
                return Err(Error::InvalidConstant((i, end)));
            }
            let digits = slice_of(&self.chars, i + 2, end);
            proof {
                assert forall|k: int| 0 <= k < digits@.len() implies #[trigger] spec_is_binary_char(digits@[k]) by {
                    assert(digits@[k] == self.chars@[i + 2 + k]);
                    if k > 0 {
                        assert(in_class(CharClass::Binary, self.chars@[i + 2 + k]));
                    }
                }
                lemma_binary_fits(digits@);
                vstd::arithmetic::power2::lemma2_to64();
                vstd::arithmetic::power2::lemma_pow2_adds(64, 64);
                if digits@.len() < 128 {
                    vstd::arithmetic::power2::lemma_pow2_strictly_increases(digits@.len(), 128);
                }
                assert(digits_value(digits@, 2) <= u128::MAX);
            }
            match parse_digits(digits.as_slice(), 2) {
                Some(value) => {
                    let n: u8 = (end - (i + 2)) as u8;
                    let width = WireWidth::Bits(n);
                    let v = WireValue::new(value).as_width(width);
                    proof {
                        crate::ast::lemma_fits_low_mask(value, n);
                        let text = self.chars@.subrange(i as int, end as int);
                        assert(end > i + 2);
                        assert(text.skip(2) =~= digits@);
                        assert(text[0] == self.chars@[i as int]);
                        assert(text[1] == 'b');
                        assert forall|k: int| 2 <= k < text.len() implies #[trigger] spec_is_binary_char(text[k]) by {
                            assert(text[k] == digits@[k - 2]);
                        }
                    }
                    Ok((i, Tok::Constant(v), end))
                },
                None => Err(Error::InvalidConstant((i, end))),
            }
        } else if self.pos < len && is_decimal_char(self.chars[self.pos]) {
            let ghost start = self.pos as int;
            self.advance_while(CharClass::Decimal);
            let end = self.pos;
            proof {
                lemma_run_end(self.chars@, CharClass::Decimal, start, end as int);
            }
            let digits = slice_of(&self.chars, i, end);
            match parse_digits(digits.as_slice(), 10) {
                Some(value) => {
                    proof {
                        let text = self.chars@.subrange(i as int, end as int);
                        assert(text =~= digits@);
                        assert forall|k: int| 0 <= k < text.len() implies #[trigger] spec_is_decimal_char(text[k]) by {
                            assert(text[k] == self.chars@[i + k]);
                            if k > 0 {
                                assert(in_class(CharClass::Decimal, self.chars@[i + k]));
                            }
                        }
                    }
                    Ok((i, Tok::Constant(WireValue::new(value)), end))
                },
                None => Err(Error::InvalidConstant((i, end))),
            }
        } else {
            let digits = slice_of(&self.chars, i, i + 1);
            proof {
                assert(digits@.drop_last() =~= Seq::<char>::empty());
                assert(digits_value(digits@.drop_last(), 10) == 0);
                assert(digits_value(digits@, 10) == digit_value(digits@.last()));
                assert(digits_value(digits@, 10) <= u128::MAX);
            }
            match parse_digits(digits.as_slice(), 10) {
                Some(value) => {
                    proof {
                        let text = self.chars@.subrange(i as int, i + 1);
                        assert(text =~= digits@);
                        assert(text[0] == self.chars@[i as int]);
                    }
                    Ok((i, Tok::Constant(WireValue::new(value)), i + 1))
                },
                None => Err(Error::InvalidConstant((i, i + 1))),
            }
        }
    }

    /// The next token, or `None` at the end of the text. White space and comments
    /// (`#` or `//` to the end of the line, `/*` to `*/`) are skipped, and only they:
    /// the token, or the error, comes at the first position that starts neither.
    #[verifier::rlimit(60)]
    #[verifier::spinoff_prover]
    pub fn next(&mut self) -> (r: Option<Spanned>)
        requires
            old(self).wf(),
        ensures
            final(self).wf(),
            final(self).text() == old(self).text(),
            old(self).position() <= final(self).position(),
            final(self).position() <= final(self).text().len(),
            match r {
                None => final(self).position() == old(self).text().len() && skipped(
                    old(self).text(),
                    old(self).position() as int,
                    old(self).text().len() as int,
                ),
                Some(Ok((s, t, e))) => old(self).position() <= s < e == final(self).position() && skipped(
                    old(self).text(),
                    old(self).position() as int,
                    s as int,
                ) && tok_written_as(t, old(self).text().subrange(s as int, e as int)) && token_complete(
                    old(self).text(),
                    s as int,
                    e as int,
                    t,
                ) && (t matches Tok::Constant(v) ==> v.valid()),
                Some(Err(err)) => exists|s: int|
                    #![trigger lex_fault(old(self).text(), s, err)]
                    old(self).position() <= s < old(self).text().len() && skipped(
                        old(self).text(),
                        old(self).position() as int,
                        s,
                    ) && lex_fault(old(self).text(), s, err),
            },
    {
        let len = self.chars.len();
        proof {
            lemma_skipped_none(self.chars@, self.pos as int);
        }
        loop
            invariant
                self.wf(),
                self.chars == old(self).chars,
                len == self.chars@.len(),
                old(self).pos <= self.pos,
                skipped(self.chars@, old(self).pos as int, self.pos as int),
            decreases len - self.pos,
        {
            if self.pos >= len {
                return None;
            }
            let i = self.pos;
            let c = self.chars[i];
            self.pos = i + 1;
            if is_whitespace(c) {
                proof {
                    lemma_skipped_extend(self.chars@, old(self).pos as int, i as int, i + 1);
                }
                continue;
            } else if is_start_identifier_char(c) {
                self.advance_while(CharClass::Identifier);
                let end = self.pos;
                let the_token = self.resolve_identifier(i, end);
                proof {
                    let text = self.chars@.subrange(i as int, end as int);
                    assert(text[0] == c);
                    assert(forall|k: int| 0 <= k < text.len() ==> #[trigger] text[k] == self.chars@[i + k]);
                    assert forall|k: int| 1 <= k < text.len() implies #[trigger] spec_is_identifier_char(text[k]) by {
                        assert(in_class(CharClass::Identifier, self.chars@[i + k]));
                    }
                    if end < len {
                        assert(!in_class(CharClass::Identifier, self.chars@[end as int]));
                    }
                    assert(skipped(self.chars@, old(self).pos as int, i as int));
                    assert(token_complete(self.chars@, i as int, end as int, the_token));
                    assert(tok_written_as(the_token, text));
                }
                return Some(Ok((i, the_token, end)));
            } else if is_decimal_char(c) {
                let r = self.handle_constant(i);
                proof {
                    if r is Err {
                        assert(lex_fault(old(self).text(), i as int, r->Err_0));
                        assert(skipped(old(self).text(), old(self).position() as int, i as int));
                    } else {
                        assert(skipped(self.chars@, old(self).pos as int, i as int));
                        assert(token_complete(self.chars@, r->Ok_0.0 as int, r->Ok_0.2 as int, r->Ok_0.1));
                    }
                }
                return Some(r);
            } else if c == '#' {
                self.advance_while(CharClass::NotNewline);
                proof {
                    assert forall|k: int| i + 1 <= k < self.pos implies spec_is_not_newline(#[trigger] self.chars@[k]) by {
                        assert(in_class(CharClass::NotNewline, self.chars@[k]));
                    }
                    if self.pos < len {
                        assert(!in_class(CharClass::NotNewline, self.chars@[self.pos as int]));
                    }
                    assert(rest_of_line(self.chars@, i + 1, self.pos as int));
                    assert(skipped_piece(self.chars@, i as int, self.pos as int));
                    lemma_skipped_extend(self.chars@, old(self).pos as int, i as int, self.pos as int);
                }
                continue;
            } else if c == '/' {
                if self.pos < len && self.chars[self.pos] == '/' {
                    self.advance_while(CharClass::NotNewline);
                    proof {
                        assert(in_class(CharClass::NotNewline, self.chars@[i + 1]));
                        assert(self.pos >= i + 2);
                        assert forall|k: int| i + 2 <= k < self.pos implies spec_is_not_newline(#[trigger] self.chars@[k]) by {
                        assert(in_class(CharClass::NotNewline, self.chars@[k]));
                    }
                    if self.pos < len {
                        assert(!in_class(CharClass::NotNewline, self.chars@[self.pos as int]));
                    }
                    assert(rest_of_line(self.chars@, i + 2, self.pos as int));
                        assert(skipped_piece(self.chars@, i as int, self.pos as int));
                        lemma_skipped_extend(self.chars@, old(self).pos as int, i as int, self.pos as int);
                    }
                    continue;
                } else if self.pos < len && self.chars[self.pos] == '*' {
                    let mut found_end = false;
                    loop
                        invariant_except_break
                            !found_end,
                            self.wf(),
                            self.chars == old(self).chars,
                            len == self.chars@.len(),
                            i < self.pos,
                            self.chars@[i as int] == '/',
                            self.chars@[i + 1] == '*',
                            forall|k: int| i + 1 <= k < self.pos ==> !#[trigger] closes_comment(self.chars@, k),
                        ensures
                            self.wf(),
                            self.chars == old(self).chars,
                            len == self.chars@.len(),
                            i < self.pos,
                            found_end ==> block_comment(self.chars@, i as int, self.pos as int),
                            !found_end ==> forall|k: int| i + 1 <= k ==> !#[trigger] closes_comment(self.chars@, k),
                        decreases len - self.pos,
                    {
                        let before = self.pos;
                        self.advance_while(CharClass::NotStar);
                        proof {
                            assert forall|k: int| before <= k < self.pos implies !#[trigger] closes_comment(self.chars@, k) by {
                                assert(in_class(CharClass::NotStar, self.chars@[k]));
                            }
                        }
                        if self.pos < len && self.chars[self.pos] == '*' {
                            self.pos = self.pos + 1;
                            if self.pos < len && self.chars[self.pos] == '/' {
                                found_end = true;
                                self.pos = self.pos + 1;
                                proof {
                                    let q = self.pos - 2;
                                    assert(closes_comment(self.chars@, q));
                                    assert(q >= i + 1);
                                    assert(self.chars@[i as int] == '/');
                                    assert(self.chars@[i + 1] == '*');
                                    assert forall|k: int| i + 1 <= k < q implies !#[trigger] closes_comment(self.chars@, k) by {
                                        if k >= before {
                                            assert(in_class(CharClass::NotStar, self.chars@[k]));
                                        }
                                    }
                                    assert(block_comment(self.chars@, i as int, self.pos as int));
                                }
                                break;
                            }
                        } else {
                            break;
                        }
                    }
                    if !found_end {
                        proof {
                            assert(lex_fault(self.chars@, i as int, Error::UnterminatedComment(i)));
                        }
                        return Some(Err(Error::UnterminatedComment(i)));
                    }
                    proof {
                        assert(skipped_piece(self.chars@, i as int, self.pos as int));
                        lemma_skipped_extend(self.chars@, old(self).pos as int, i as int, self.pos as int);
                    }
                    continue;
                } else {
                    proof {
                        assert(self.chars@.subrange(i as int, i + 1) =~= seq![c]);
                    }
                    return Some(fixed_token(i, Tok::Divide, 1));
                }
            } else {
                let result = if c == '&' {
                    self.choose_token(i, Tok::And, '&', Tok::AndAnd)
                } else if c == '|' {
                    self.choose_token(i, Tok::Or, '|', Tok::OrOr)
                } else if c == '=' {
                    self.choose_token(i, Tok::Assign, '=', Tok::Equal)
                } else if c == '!' {
                    self.choose_token(i, Tok::Not, '=', Tok::NotEqual)
                } else if c == '>' {
                    if self.pos < len && self.chars[self.pos] == '>' {
                        self.pos = self.pos + 1;
                        fixed_token(i, Tok::RightShift, 2)
                    } else {
                        self.choose_token(i, Tok::Greater, '=', Tok::GreaterEqual)
                    }
                } else if c == '<' {
                    if self.pos < len && self.chars[self.pos] == '<' {
                        self.pos = self.pos + 1;
                        fixed_token(i, Tok::LeftShift, 2)
                    } else {
                        self.choose_token(i, Tok::Less, '=', Tok::LessEqual)
                    }
                } else if c == '.' {
                    if self.pos < len && self.chars[self.pos] == '.' {
                        self.pos = self.pos + 1;
                        fixed_token(i, Tok::DotDot, 2)
                    } else {
                        Err(Error::LexicalError(i))
                    }
                } else if c == ':' {
                    fixed_token(i, Tok::Colon, 1)
                } else if c == '~' {
                    fixed_token(i, Tok::Complement, 1)
                } else if c == ',' {
                    fixed_token(i, Tok::Comma, 1)
                } else if c == ';' {
                    fixed_token(i, Tok::Semicolon, 1)
                } else if c == '+' {
                    fixed_token(i, Tok::Plus, 1)
                } else if c == '-' {
                    fixed_token(i, Tok::Minus, 1)
                } else if c == '^' {
                    fixed_token(i, Tok::Xor, 1)
                } else if c == '*' {
                    fixed_token(i, Tok::Times, 1)
                } else if c == '(' {
                    fixed_token(i, Tok::OpenParen, 1)
                } else if c == ')' {
                    fixed_token(i, Tok::CloseParen, 1)
                } else if c == '[' {
                    fixed_token(i, Tok::OpenBracket, 1)
                } else if c == ']' {
                    fixed_token(i, Tok::CloseBracket, 1)
                } else if c == '{' {
                    fixed_token(i, Tok::OpenBrace, 1)
                } else if c == '}' {
                    fixed_token(i, Tok::CloseBrace, 1)
                } else {
                    Err(Error::LexicalError(i))
                };
                proof {
                    if result is Ok {
                        let (s, t, e) = result->Ok_0;
                        assert(token_complete(self.chars@, s as int, e as int, t));
                        let text = self.chars@.subrange(s as int, e as int);
                        assert(text[0] == c);
                        if e == s + 2 {
                            assert(text[1] == self.chars@[s + 1]);
                            assert(text =~= seq![text[0], text[1]]);
                        } else {
                            assert(text =~= seq![text[0]]);
                        }
                    } else {
                        assert(starts_nothing(self.chars@, i as int));
                        assert(lex_fault(old(self).text(), i as int, Error::LexicalError(i)));
                        assert(skipped(old(self).text(), old(self).position() as int, i as int));
                    }
                }
                return Some(result);
            }
        }
    }
}

pub proof fn lemma_binary_fits(digits: Seq<char>)
    requires
        forall|k: int| 0 <= k < digits.len() ==> #[trigger] spec_is_binary_char(digits[k]),
    ensures
        digits_value(digits, 2) < vstd::arithmetic::power2::pow2(digits.len()),
    decreases digits.len(),
{
    if digits.len() == 0 {
        vstd::arithmetic::power2::lemma_pow2_pos(0);
    } else {
        vstd::arithmetic::power2::lemma_pow2_unfold(digits.len());
        let init = digits.drop_last();
        assert forall|k: int| 0 <= k < init.len() implies #[trigger] spec_is_binary_char(init[k]) by {
            assert(init[k] == digits[k]);
        }
        lemma_binary_fits(init);
        assert(spec_is_binary_char(digits[digits.len() - 1]));
        let a = digits_value(init, 2);
        let d = digit_value(digits.last());
        let p = vstd::arithmetic::power2::pow2((digits.len() - 1) as nat);
        assert(d <= 1);
        assert(a * 2 + d < p * 2) by (nonlinear_arith)
            requires
                a < p,
                d <= 1,
        ;
    }
}

} // verus!
