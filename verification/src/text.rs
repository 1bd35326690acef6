//! Building text: characters, decimal and hexadecimal numbers, padding.
use vstd::prelude::*;

verus! {

/// Appends one character to a string (`String::push`).
#[verifier::external_body]
pub fn push_char(s: &mut String, c: char)
    ensures
        final(s)@ == old(s)@.push(c),
{
    s.push(c);
}

/// The characters of a string slice, in order (`str::chars`, collected).
#[verifier::external_body]
pub fn chars_of(s: &str) -> (r: Vec<char>)
    ensures
        r@ == s@,
{
    s.chars().collect()
}

/// Appends a string slice to a string.
pub fn push_str(s: &mut String, t: &str)
    ensures
        final(s)@ == old(s)@ + t@,
{
    s.append(t);
}

/// Appends the characters of a sequence to a string.
pub fn push_chars(s: &mut String, t: &[char])
    ensures
        final(s)@ == old(s)@ + t@,
{
    let ghost start = s@;
    let mut i: usize = 0;
    while i < t.len()
        invariant
            i <= t@.len(),
            s@ == start + t@.subrange(0, i as int),
        decreases t@.len() - i,
    {
        push_char(s, t[i]);
        i = i + 1;
        assert(t@.subrange(0, i as int) == t@.subrange(0, i - 1).push(t@[i - 1]));
    }
    assert(t@.subrange(0, t@.len() as int) == t@);
}

/// A string holding the given characters.
pub fn string_from_chars(t: &[char]) -> (r: String)
    ensures
        r@ == t@,
{
    let mut s = String::new();
    push_chars(&mut s, t);
    s
}

/// The character for a digit below 16 (lowercase letters from 10).
pub open spec fn digit_char(d: nat) -> char {
    if d < 10 {
        (48 + d) as char
    } else {
        (87 + d) as char
    }
}

/// The decimal digits of a number, most significant first.
pub open spec fn dec_digits(n: nat) -> Seq<char>
    decreases n,
{
    if n < 10 {
        seq![digit_char(n)]
    } else {
        dec_digits(n / 10).push(digit_char(n % 10))
    }
}

/// The lowercase hexadecimal digits of a number, most significant first.
pub open spec fn hex_digits(n: nat) -> Seq<char>
    decreases n,
{
    if n < 16 {
        seq![digit_char(n)]
    } else {
        hex_digits(n / 16).push(digit_char(n % 16))
    }
}

/// `n` copies of a character.
pub open spec fn repeat_char(c: char, n: nat) -> Seq<char> {
    Seq::new(n, |i: int| c)
}

/// Texts joined with a separator between each two.
pub open spec fn joined(items: Seq<Seq<char>>, sep: Seq<char>) -> Seq<char>
    decreases items.len(),
{
    if items.len() == 0 {
        Seq::empty()
    } else if items.len() == 1 {
        items[0]
    } else {
        joined(items.drop_last(), sep) + sep + items.last()
    }
}

/// Digits padded on the left with zeros to at least `width` characters.
pub open spec fn zero_pad(digits: Seq<char>, width: nat) -> Seq<char> {
    if digits.len() >= width {
        digits
    } else {
        repeat_char('0', (width - digits.len()) as nat) + digits
    }
}

/// Text padded on the left with spaces to at least `width` characters.
pub open spec fn pad_left(t: Seq<char>, width: nat) -> Seq<char> {
    if t.len() >= width {
        t
    } else {
        repeat_char(' ', (width - t.len()) as nat) + t
    }
}

pub fn digit(d: u8) -> (c: char)
    requires
        d < 16,
    ensures
        c == digit_char(d as nat),
{
    if d < 10 {
        ((48 + d) as u8) as char
    } else {
        ((87 + d) as u8) as char
    }
}

/// Appends the decimal digits of `n`.
pub fn push_dec(s: &mut String, n: u128)
    ensures
        final(s)@ == old(s)@ + dec_digits(n as nat),
    decreases n,
{
    if n >= 10 {
        push_dec(s, n / 10);
    }
    push_char(s, digit((n % 10) as u8));
}

/// Appends the hexadecimal digits of `n`.
pub fn push_hex(s: &mut String, n: u128)
    ensures
        final(s)@ == old(s)@ + hex_digits(n as nat),
    decreases n,
{
    if n >= 16 {
        push_hex(s, n / 16);
    }
    push_char(s, digit((n % 16) as u8));
}

/// Appends `n` copies of `c`.
pub fn push_repeat(s: &mut String, c: char, n: usize)
    ensures
        final(s)@ == old(s)@ + repeat_char(c, n as nat),
{
    let ghost start = s@;
    let mut i: usize = 0;
    while i < n
        invariant
            i <= n,
            s@ == start + repeat_char(c, i as nat),
        decreases n - i,
    {
        push_char(s, c);
        i = i + 1;
        assert(repeat_char(c, i as nat) == repeat_char(c, (i - 1) as nat).push(c));
    }
}

/// The number of decimal digits of `n`.
pub fn dec_len(n: u128) -> (r: usize)
    ensures
        r == dec_digits(n as nat).len(),
        1 <= r <= 40,
    decreases n,
{
    if n >= 10 {
        let k = dec_len(n / 10);
        proof {
            assert(n / 10 <= u128::MAX / 10);
            lemma_dec_len_bound(n as nat);
        }
        k + 1
    } else {
        1
    }
}

proof fn lemma_dec_len_bound(n: nat)
    requires
        n <= u128::MAX,
    ensures
        dec_digits(n).len() <= 40,
{
    assert(u128::MAX < pow10(39)) by {
        reveal_with_fuel(pow10, 40);
    }
    lemma_dec_len_le(n, 38);
}

pub open spec fn pow10(k: nat) -> nat
    decreases k,
{
    if k == 0 {
        1
    } else {
        10 * pow10((k - 1) as nat)
    }
}

proof fn lemma_dec_len_le(n: nat, k: nat)
    requires
        n < pow10(k + 1),
    ensures
        dec_digits(n).len() <= k + 1,
    decreases k,
{
    assert(pow10(k + 1) == 10 * pow10(k));
    assert(pow10(0) == 1);
    if n >= 10 && k > 0 {
        let p = pow10(k);
        assert(n / 10 < p) by (nonlinear_arith)
            requires
                n < 10 * p,
        ;
        lemma_dec_len_le(n / 10, (k - 1) as nat);
    }
}

/// The number of hexadecimal digits of `n`.
pub fn hex_len(n: u128) -> (r: usize)
    ensures
        r == hex_digits(n as nat).len(),
        1 <= r <= 32,
    decreases n,
{
    if n >= 16 {
        let k = hex_len(n / 16);
        proof {
            assert(u128::MAX < pow16(32)) by {
                reveal_with_fuel(pow16, 33);
            }
            lemma_hex_len_le(n as nat, 31);
        }
        k + 1
    } else {
        1
    }
}

pub open spec fn pow16(k: nat) -> nat
    decreases k,
{
    if k == 0 {
        1
    } else {
        16 * pow16((k - 1) as nat)
    }
}

proof fn lemma_hex_len_le(n: nat, k: nat)
    requires
        n < pow16(k + 1),
    ensures
        hex_digits(n).len() <= k + 1,
    decreases k,
{
    assert(pow16(k + 1) == 16 * pow16(k));
    assert(pow16(0) == 1);
    if n >= 16 && k > 0 {
        let p = pow16(k);
        assert(n / 16 < p) by (nonlinear_arith)
            requires
                n < 16 * p,
        ;
        lemma_hex_len_le(n / 16, (k - 1) as nat);
    }
}

/// Appends the hexadecimal digits of `n`, zero-padded to at least `width` digits.
pub fn push_hex_padded(s: &mut String, n: u128, width: usize)
    ensures
        final(s)@ == old(s)@ + zero_pad(hex_digits(n as nat), width as nat),
{
    let len = hex_len(n);
    if len < width {
        push_repeat(s, '0', width - len);
    }
    push_hex(s, n);
    proof {
        if len >= width {
            assert(old(s)@ + zero_pad(hex_digits(n as nat), width as nat) == old(s)@ + hex_digits(n as nat));
        }
    }
}

/// Appends the decimal digits of `n`, space-padded on the left to at least `width` characters.
pub fn push_dec_right_aligned(s: &mut String, n: u128, width: usize)
    ensures
        final(s)@ == old(s)@ + pad_left(dec_digits(n as nat), width as nat),
{
    let len = dec_len(n);
    if len < width {
        push_repeat(s, ' ', width - len);
    }
    push_dec(s, n);
}

/// Appends the hexadecimal digits of `n`, space-padded on the left to at least `width` characters.
pub fn push_hex_right_aligned(s: &mut String, n: u128, width: usize)
    ensures
        final(s)@ == old(s)@ + pad_left(hex_digits(n as nat), width as nat),
{
    let len = hex_len(n);
    if len < width {
        push_repeat(s, ' ', width - len);
    }
    push_hex(s, n);
}

/// The UTF-8 encoding of a character.
pub open spec fn utf8_char(c: char) -> Seq<u8> {
    let v = c as u32;
    if v < 0x80 {
        seq![v as u8]
    } else if v < 0x800 {
        seq![(0xC0 | (v >> 6)) as u8, (0x80 | (v & 0x3F)) as u8]
    } else if v < 0x10000 {
        seq![(0xE0 | (v >> 12)) as u8, (0x80 | ((v >> 6) & 0x3F)) as u8, (0x80 | (v & 0x3F)) as u8]
    } else {
        seq![
            (0xF0 | (v >> 18)) as u8,
            (0x80 | ((v >> 12) & 0x3F)) as u8,
            (0x80 | ((v >> 6) & 0x3F)) as u8,
            (0x80 | (v & 0x3F)) as u8,
        ]
    }
}

/// The UTF-8 encoding of a text.
pub open spec fn utf8(t: Seq<char>) -> Seq<u8>
    decreases t.len(),
{
    if t.len() == 0 {
        Seq::empty()
    } else {
        utf8(t.drop_last()) + utf8_char(t.last())
    }
}

/// Appends the UTF-8 encoding of a text to bytes.
pub fn append_utf8(out: &mut Vec<u8>, text: &str)
    ensures
        final(out)@ == old(out)@ + utf8(text@),
{
    let chars = chars_of(text);
    let mut i: usize = 0;
    while i < chars.len()
        invariant
            i <= chars@.len(),
            chars@ == text@,
            out@ == old(out)@ + utf8(chars@.subrange(0, i as int)),
        decreases chars@.len() - i,
    {
        let c = chars[i];
        let v = c as u32;
        let ghost before = out@;
        if v < 0x80 {
            out.push(v as u8);
        } else if v < 0x800 {
            out.push((0xC0 | (v >> 6)) as u8);
            out.push((0x80 | (v & 0x3F)) as u8);
        } else if v < 0x10000 {
            out.push((0xE0 | (v >> 12)) as u8);
            out.push((0x80 | ((v >> 6) & 0x3F)) as u8);
            out.push((0x80 | (v & 0x3F)) as u8);
        } else {
            out.push((0xF0 | (v >> 18)) as u8);
            out.push((0x80 | ((v >> 12) & 0x3F)) as u8);
            out.push((0x80 | ((v >> 6) & 0x3F)) as u8);
            out.push((0x80 | (v & 0x3F)) as u8);
        }
        proof {
            let p = chars@.subrange(0, i + 1);
            assert(p.drop_last() == chars@.subrange(0, i as int));
            assert(p.last() == c);
            assert(out@ =~= before + utf8_char(c));
        }
        i = i + 1;
    }
    assert(chars@.subrange(0, chars@.len() as int) == chars@);
}


proof fn lemma_digit_char_value(d: nat)
    requires
        d < 16,
    ensures
        crate::lexer::digit_value(digit_char(d)) == d,
        crate::lexer::spec_is_hexadecimal_char(digit_char(d)),
        d < 10 ==> crate::lexer::spec_is_decimal_char(digit_char(d)),
{
}

/// The hexadecimal digits of a number read back, in base 16, as the number: each digit
/// is a hexadecimal digit and they give the number most significant first.
pub proof fn law_hex_digits(n: nat)
    ensures
        crate::lexer::digits_value(hex_digits(n), 16) == n,
        forall|i: int| 0 <= i < hex_digits(n).len() ==> crate::lexer::spec_is_hexadecimal_char(#[trigger] hex_digits(n)[i]),
    decreases n,
{
    if n < 16 {
        lemma_digit_char_value(n);
        assert(seq![digit_char(n)].drop_last() =~= Seq::<char>::empty());
        assert(crate::lexer::digits_value(Seq::<char>::empty(), 16) == 0);
        assert(hex_digits(n) == seq![digit_char(n)]);
        assert(crate::lexer::digits_value(hex_digits(n), 16) == crate::lexer::digits_value(Seq::<char>::empty(), 16) * 16
            + crate::lexer::digit_value(digit_char(n)));
    } else {
        law_hex_digits(n / 16);
        lemma_digit_char_value(n % 16);
        let s = hex_digits(n / 16);
        assert(s.push(digit_char(n % 16)).drop_last() =~= s);
        vstd::arithmetic::div_mod::lemma_fundamental_div_mod(n as int, 16);
        assert(hex_digits(n) == s.push(digit_char(n % 16)));
        assert(crate::lexer::digits_value(hex_digits(n), 16) == crate::lexer::digits_value(s, 16) * 16
            + crate::lexer::digit_value(digit_char(n % 16)));
        assert forall|i: int| 0 <= i < hex_digits(n).len() implies crate::lexer::spec_is_hexadecimal_char(
            #[trigger] hex_digits(n)[i],
        ) by {
            if i < s.len() {
                assert(hex_digits(n)[i] == s[i]);
            }
        }
    }
}

/// The decimal digits of a number read back, in base 10, as the number.
pub proof fn law_dec_digits(n: nat)
    ensures
        crate::lexer::digits_value(dec_digits(n), 10) == n,
        forall|i: int| 0 <= i < dec_digits(n).len() ==> crate::lexer::spec_is_decimal_char(#[trigger] dec_digits(n)[i]),
    decreases n,
{
    if n < 10 {
        lemma_digit_char_value(n);
        assert(seq![digit_char(n)].drop_last() =~= Seq::<char>::empty());
        assert(crate::lexer::digits_value(Seq::<char>::empty(), 10) == 0);
        assert(dec_digits(n) == seq![digit_char(n)]);
        assert(crate::lexer::digits_value(dec_digits(n), 10) == crate::lexer::digits_value(Seq::<char>::empty(), 10) * 10
            + crate::lexer::digit_value(digit_char(n)));
    } else {
        law_dec_digits(n / 10);
        lemma_digit_char_value(n % 10);
        let s = dec_digits(n / 10);
        assert(s.push(digit_char(n % 10)).drop_last() =~= s);
        vstd::arithmetic::div_mod::lemma_fundamental_div_mod(n as int, 10);
        assert(dec_digits(n) == s.push(digit_char(n % 10)));
        assert(crate::lexer::digits_value(dec_digits(n), 10) == crate::lexer::digits_value(s, 10) * 10
            + crate::lexer::digit_value(digit_char(n % 10)));
        assert forall|i: int| 0 <= i < dec_digits(n).len() implies crate::lexer::spec_is_decimal_char(
            #[trigger] dec_digits(n)[i],
        ) by {
            if i < s.len() {
                assert(dec_digits(n)[i] == s[i]);
            }
        }
    }
}

} // verus!
