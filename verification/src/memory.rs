//! The memory of the processor: a byte at each address, zero where nothing was
//! written; values are read and written least significant byte first.
use vstd::prelude::*;
use crate::ast::{WireValue, WireWidth};
use crate::errors::Error;
use crate::io::spec_lines;
use crate::text::{hex_digits, zero_pad};

verus! {

/// The address `k` bytes after `address`, wrapping around after the last address.
pub open spec fn addr_plus(address: u64, k: u64) -> u64 {
    vstd::wrapping::u64_specs::wrapping_add(address, k)
}

/// How many bytes after `address` the address `a` is, wrapping around.
pub open spec fn offset(address: u64, a: u64) -> u64 {
    vstd::wrapping::u64_specs::wrapping_sub(a, address)
}

pub open spec fn pow256(k: nat) -> nat
    decreases k,
{
    if k == 0 {
        1
    } else {
        256 * pow256((k - 1) as nat)
    }
}

/// Byte `k` of a value, counting from the least significant.
pub open spec fn byte_of(value: u128, k: nat) -> u8 {
    ((value as nat / pow256(k)) % 256) as u8
}

proof fn lemma_offset_of_plus(address: u64, k: u64)
    ensures
        offset(address, addr_plus(address, k)) == k,
{
}

proof fn lemma_offset_injective(address: u64, a: u64, b: u64)
    requires
        offset(address, a) == offset(address, b),
    ensures
        a == b,
{
}

proof fn lemma_pow256_positive(k: nat)
    ensures
        pow256(k) >= 1,
    decreases k,
{
    if k > 0 {
        lemma_pow256_positive((k - 1) as nat);
    }
}

/// 256 to the `k` is 2 to the `8k`.
proof fn lemma_pow256_pow2(k: nat)
    ensures
        pow256(k) == vstd::arithmetic::power2::pow2(8 * k),
    decreases k,
{
    if k == 0 {
        vstd::arithmetic::power2::lemma2_to64();
    } else {
        lemma_pow256_pow2((k - 1) as nat);
        vstd::arithmetic::power2::lemma_pow2_adds(8 * ((k - 1) as nat), 8);
        vstd::arithmetic::power2::lemma2_to64();
        assert(8 * k == 8 * ((k - 1) as nat) + 8);
    }
}

/// The number of rows of sixteen bytes in the address space.
pub open spec fn row_count() -> nat {
    0x1000_0000_0000_0000
}

/// The cell of a byte in a row of the memory dump: a space and two hexadecimal digits,
/// or three spaces where nothing was written.
pub open spec fn byte_cell(m: Map<u64, u8>, a: u64) -> Seq<char> {
    if m.dom().contains(a) {
        " "@ + zero_pad(hex_digits(m[a] as nat), 2)
    } else {
        "   "@
    }
}

/// What follows the cell of column `c`: the spaces between groups of four, and the
/// end of the row after the last column.
pub open spec fn column_gap(c: nat) -> Seq<char> {
    if c == 3 || c == 11 {
        " "@
    } else if c == 7 {
        "  "@
    } else if c == 15 {
        "    |\n"@
    } else {
        Seq::empty()
    }
}

/// The cells of columns `from` up to `to` of a row.
pub open spec fn row_cells(m: Map<u64, u8>, row: nat, from: nat, to: nat) -> Seq<char>
    decreases to,
{
    if to <= from {
        Seq::empty()
    } else {
        row_cells(m, row, from, (to - 1) as nat) + byte_cell(m, (row * 16 + to - 1) as u64) + column_gap(
            (to - 1) as nat,
        )
    }
}

/// The label of a row: the row's address without its last hexadecimal digit.
pub open spec fn row_label(row: nat) -> Seq<char> {
    "|  0x"@ + zero_pad(hex_digits(row), 7) + "_:  "@
}

/// A row from column `from` on; the label only when it starts at the first column.
pub open spec fn row_text(m: Map<u64, u8>, row: nat, from: nat) -> Seq<char> {
    (if from == 0 {
        row_label(row)
    } else {
        Seq::empty()
    }) + row_cells(m, row, from, 16)
}

/// Something was written in the row.
pub open spec fn row_used(m: Map<u64, u8>, row: nat) -> bool {
    exists|a: u64| #[trigger] m.dom().contains(a) && a / 16 == row
}

/// The rows from `lo` up to `hi` in which something was written.
pub open spec fn used_rows_text(m: Map<u64, u8>, lo: nat, hi: nat) -> Seq<char>
    decreases hi,
{
    if hi <= lo {
        Seq::empty()
    } else {
        used_rows_text(m, lo, (hi - 1) as nat) + if row_used(m, (hi - 1) as nat) {
            row_text(m, (hi - 1) as nat, 0)
        } else {
            Seq::empty()
        }
    }
}

/// The lowest address written.
pub open spec fn first_address(m: Map<u64, u8>) -> u64 {
    choose|f: u64| m.dom().contains(f) && forall|g: u64| #[trigger] m.dom().contains(g) ==> f <= g
}

/// The first line of the memory dump.
pub open spec fn memory_header() -> Seq<char> {
    "| used memory:   _0 _1 _2 _3  _4 _5 _6 _7   _8 _9 _a _b  _c _d _e _f    |\n"@
}

/// The memory dump: the header, then each row in which something was written, in
/// order. The first such row starts at the lowest address written, and has a label
/// only when that address starts the row.
pub open spec fn memory_dump(m: Map<u64, u8>) -> Seq<char> {
    memory_header() + if m.dom().len() == 0 {
        Seq::empty()
    } else {
        let f = first_address(m);
        row_text(m, (f / 16) as nat, (f % 16) as nat) + used_rows_text(m, (f / 16 + 1) as nat, row_count())
    }
}

/// Rows in which nothing was written add nothing.
proof fn lemma_unused_rows(m: Map<u64, u8>, lo: nat, mid: nat, hi: nat)
    requires
        lo <= mid <= hi,
        forall|r: nat| mid <= r < hi ==> !row_used(m, r),
    ensures
        used_rows_text(m, lo, hi) == used_rows_text(m, lo, mid),
    decreases hi,
{
    if hi > mid {
        assert(!row_used(m, (hi - 1) as nat));
        lemma_unused_rows(m, lo, mid, (hi - 1) as nat);
    }
}

/// Bytes, each at its own address.
#[derive(Debug)]
pub struct Memory {
    addresses: Vec<u64>,
    bytes: Vec<u8>,
}

impl Memory {
    #[verifier::type_invariant]
    pub closed spec fn wf(self) -> bool {
        &&& self.addresses@.len() == self.bytes@.len()
        &&& forall|i: int, j: int| 0 <= i < j < self.addresses@.len() ==> self.addresses@[i] < self.addresses@[j]
    }

    /// The bytes that were written, by address.
    pub closed spec fn view(self) -> Map<u64, u8> {
        Map::new(
            |a: u64| self.addresses@.contains(a),
            |a: u64| self.bytes@[self.addresses@.index_of(a)],
        )
    }

    /// The byte at an address: zero where nothing was written.
    pub open spec fn byte(self, a: u64) -> u8 {
        if self@.dom().contains(a) {
            self@[a]
        } else {
            0
        }
    }

    /// The value of `n` bytes read from `address` on, the first least significant.
    pub open spec fn read_value(self, address: u64, n: nat) -> nat
        decreases n,
    {
        if n == 0 {
            0
        } else {
            self.read_value(address, (n - 1) as nat) + self.byte(addr_plus(address, (n - 1) as u64)) as nat * pow256(
                (n - 1) as nat,
            )
        }
    }

    pub fn new() -> (r: Memory)
        ensures
            r@ == Map::<u64, u8>::empty(),
    {
        let r = Memory { addresses: Vec::new(), bytes: Vec::new() };
        assert(r@ =~= Map::<u64, u8>::empty());
        r
    }

    /// The number of addresses written.
    pub fn len(&self) -> (r: usize)
        ensures
            r == self@.dom().len(),
    {
        proof {
            use_type_invariant(self);
            self.lemma_view();
        }
        self.addresses.len()
    }

    proof fn lemma_view(self)
        requires
            self.wf(),
        ensures
            self.addresses@.no_duplicates(),
            self@.dom() == self.addresses@.to_set(),
            self@.dom().len() == self.addresses@.len(),
            forall|i: int| 0 <= i < self.addresses@.len() ==> #[trigger] self@[self.addresses@[i]] == self.bytes@[i],
    {
        assert forall|i: int, j: int| 0 <= i < j < self.addresses@.len() implies self.addresses@[i] != self.addresses@[j] by {
        }
        assert(self@.dom() =~= self.addresses@.to_set());
        self.addresses@.unique_seq_to_set();
        assert forall|i: int| 0 <= i < self.addresses@.len() implies #[trigger] self@[self.addresses@[i]] == self.bytes@[i] by {
            let a = self.addresses@[i];
            assert(self.addresses@.contains(a));
            let j = self.addresses@.index_of(a);
            assert(self.addresses@[j] == a);
            if i < j {
                assert(self.addresses@[i] < self.addresses@[j]);
            } else if j < i {
                assert(self.addresses@[j] < self.addresses@[i]);
            }
        }
    }

    /// The position of an address, or where it would go to keep the addresses in order.
    fn find(&self, a: u64) -> (r: Result<usize, usize>)
        ensures
            match r {
                Ok(i) => i < self.addresses@.len() && self.addresses@[i as int] == a,
                Err(i) => i <= self.addresses@.len() && (forall|j: int| 0 <= j < i ==> self.addresses@[j] < a) && (
                forall|j: int| i <= j < self.addresses@.len() ==> self.addresses@[j] > a),
            },
    {
        proof {
            use_type_invariant(self);
        }
        let mut lo: usize = 0;
        let mut hi: usize = self.addresses.len();
        while lo < hi
            invariant
                lo <= hi <= self.addresses@.len(),
                forall|i: int, j: int| 0 <= i < j < self.addresses@.len() ==> self.addresses@[i] < self.addresses@[j],
                forall|j: int| 0 <= j < lo ==> self.addresses@[j] < a,
                forall|j: int| hi <= j < self.addresses@.len() ==> self.addresses@[j] > a,
            decreases hi - lo,
        {
            let mid = lo + (hi - lo) / 2;
            let m = self.addresses[mid];
            if m == a {
                return Ok(mid);
            } else if m < a {
                lo = mid + 1;
            } else {
                hi = mid;
            }
        }
        Err(lo)
    }

    /// The byte at an address.
    pub fn get(&self, a: u64) -> (r: u8)
        ensures
            r == self.byte(a),
    {
        proof {
            use_type_invariant(self);
            self.lemma_view();
        }
        match self.find(a) {
            Ok(i) => self.bytes[i],
            Err(i) => {
                proof {
                    if self.addresses@.contains(a) {
                        let j = self.addresses@.index_of(a);
                        if j < i {
                            assert(self.addresses@[j] < a);
                        } else {
                            assert(self.addresses@[j] > a);
                        }
                    }
                }
                0
            },
        }
    }

    /// Sets the byte at an address.
    pub fn set(&mut self, a: u64, b: u8)
        ensures
            final(self)@ == old(self)@.insert(a, b),
    {
        proof {
            use_type_invariant(&*self);
            self.lemma_view();
        }
        let ghost old_view = self@;
        let found = self.find(a);
        let mut tmp = Memory::new();
        std::mem::swap(&mut tmp, self);
        let Memory { addresses: mut addresses, bytes: mut bytes } = tmp;
        let ghost old_addresses = addresses@;
        let ghost old_bytes = bytes@;
        match found {
            Ok(i) => {
                bytes.set(i, b);
                let r = Memory { addresses, bytes };
                proof {
                    r.lemma_view();
                    assert forall|x: u64| #[trigger] r@.dom().contains(x) == old_view.insert(a, b).dom().contains(x) by {
                        assert(r.addresses@ == old_addresses);
                    }
                    assert forall|x: u64| #[trigger] r@.dom().contains(x) implies r@[x] == old_view.insert(a, b)[x] by {
                        let j = r.addresses@.index_of(x);
                        assert(r@[r.addresses@[j]] == r.bytes@[j]);
                        if x != a {
                            assert(old_addresses[j] == x);
                        }
                    }
                    assert(r@ =~= old_view.insert(a, b));
                }
                *self = r;
            },
            Err(i) => {
                addresses.insert(i, a);
                bytes.insert(i, b);
                let r = Memory { addresses, bytes };
                proof {
                    assert forall|x: int, y: int| 0 <= x < y < r.addresses@.len() implies r.addresses@[x] < r.addresses@[y] by {
                        if y < i {
                        } else if x < i && y == i {
                        } else if x < i && y > i {
                            assert(r.addresses@[y] == old_addresses[y - 1]);
                        } else if x == i {
                            assert(r.addresses@[y] == old_addresses[y - 1]);
                        } else {
                            assert(r.addresses@[y] == old_addresses[y - 1]);
                            assert(r.addresses@[x] == old_addresses[x - 1]);
                        }
                    }
                    r.lemma_view();
                    assert forall|x: u64| #[trigger] r@.dom().contains(x) == old_view.insert(a, b).dom().contains(x) by {
                        if r.addresses@.contains(x) {
                            let j = r.addresses@.index_of(x);
                            if j < i {
                                assert(old_addresses[j] == x);
                            } else if j > i {
                                assert(old_addresses[j - 1] == x);
                            }
                        }
                        if old_addresses.contains(x) {
                            let j = old_addresses.index_of(x);
                            if j < i {
                                assert(r.addresses@[j] == x);
                            } else {
                                assert(r.addresses@[j + 1] == x);
                            }
                        }
                        if x == a {
                            assert(r.addresses@[i as int] == x);
                        }
                    }
                    assert forall|x: u64| #[trigger] r@.dom().contains(x) implies r@[x] == old_view.insert(a, b)[x] by {
                        let j = r.addresses@.index_of(x);
                        assert(r@[r.addresses@[j]] == r.bytes@[j]);
                        if j < i {
                            assert(old_addresses[j] == x);
                            assert(old_view[old_addresses[j]] == old_bytes[j]);
                        } else if j > i {
                            assert(old_addresses[j - 1] == x);
                            assert(old_view[old_addresses[j - 1]] == old_bytes[j - 1]);
                        }
                    }
                    assert(r@ =~= old_view.insert(a, b));
                }
                *self = r;
            },
        }
    }

    /// The value of `bytes` bytes read from `address` on, least significant first,
    /// with a width of 8 bits per byte.
    pub fn read(&self, address: u64, bytes: u8) -> (r: WireValue)
        requires
            bytes <= 16,
        ensures
            r.bits == self.read_value(address, bytes as nat),
            r.width == WireWidth::Bits((8 * bytes) as u8),
            r.valid(),
    {
        let mut result: u128 = 0;
        let mut factor: u128 = 1;
        let mut k: u8 = 0;
        proof {
            reveal_with_fuel(pow256, 17);
        }
        while k < bytes
            invariant
                k <= bytes <= 16,
                result == self.read_value(address, k as nat),
                result < pow256(k as nat),
                k < bytes ==> factor == pow256(k as nat),
                pow256(16) == 0x1_0000_0000_0000_0000_0000_0000_0000_0000,
            decreases bytes - k,
        {
            let b = self.get(address.wrapping_add(k as u64));
            proof {
                lemma_pow256_monotone(k as nat + 1, 16);
                assert(result + b as nat * pow256(k as nat) < pow256(k as nat + 1)) by (nonlinear_arith)
                    requires
                        result < pow256(k as nat),
                        b < 256,
                        pow256(k as nat + 1) == 256 * pow256(k as nat),
                ;
            }
            result = result + (b as u128) * factor;
            if k + 1 < bytes {
                proof {
                    lemma_pow256_monotone(k as nat + 1, 15);
                }
                factor = factor * 256;
            }
            k = k + 1;
        }
        let width = WireWidth::Bits(8 * bytes);
        proof {
            if bytes == 0 {
                assert(result == 0);
                assert(0u128 & 0u128 == 0u128) by (bit_vector);
            } else {
                lemma_pow256_pow2(bytes as nat);
                crate::ast::lemma_fits_low_mask(result, (8 * bytes) as u8);
            }
        }
        WireValue { bits: result, width }
    }

    /// Writes the `bytes` least significant bytes of a value, from `address` on, the
    /// least significant first.
    pub fn write(&mut self, address: u64, value: u128, bytes: u8)
        requires
            bytes <= 16,
        ensures
            forall|a: u64|
                #![trigger final(self).byte(a)]
                final(self).byte(a) == if (offset(address, a) as nat) < bytes as nat {
                    byte_of(value, offset(address, a) as nat)
                } else {
                    old(self).byte(a)
                },
    {
        let mut rest: u128 = value;
        let mut k: u8 = 0;
        assert(pow256(0) == 1);
        assert(value as nat / 1 == value as nat);
        while k < bytes
            invariant
                k <= bytes <= 16,
                rest as nat == value as nat / pow256(k as nat),
                forall|a: u64|
                    #![trigger self.byte(a)]
                    self.byte(a) == if (offset(address, a) as nat) < k as nat {
                        byte_of(value, offset(address, a) as nat)
                    } else {
                        old(self).byte(a)
                    },
            decreases bytes - k,
        {
            let target = address.wrapping_add(k as u64);
            let ghost before = *self;
            self.set(target, (rest % 256) as u8);
            proof {
                lemma_offset_of_plus(address, k as u64);
                lemma_pow256_positive(k as nat);
                assert forall|a: u64| #![trigger self.byte(a)]
                    self.byte(a) == if (offset(address, a) as nat) < k as nat + 1 {
                        byte_of(value, offset(address, a) as nat)
                    } else {
                        old(self).byte(a)
                    } by {
                    if a == target {
                        assert(offset(address, a) == k);
                    } else {
                        assert(self.byte(a) == before.byte(a));
                        if offset(address, a) == k {
                            lemma_offset_injective(address, a, target);
                        }
                    }
                }
                vstd::arithmetic::div_mod::lemma_div_denominator(value as int, pow256(k as nat) as int, 256);
                assert(pow256(k as nat + 1) == pow256(k as nat) * 256);
            }
            rest = rest / 256;
            k = k + 1;
        }
    }
}

/// Reading back what was written: after `write(address, value, n)` (whose contract
/// is the `requires` here), reading `n` bytes at `address` gives the `n` least
/// significant bytes of the value.
pub proof fn lemma_read_after_write(after: Memory, before: Memory, address: u64, value: u128, n: nat)
    requires
        n <= 16,
        forall|a: u64|
            #![trigger after.byte(a)]
            after.byte(a) == if (offset(address, a) as nat) < n {
                byte_of(value, offset(address, a) as nat)
            } else {
                before.byte(a)
            },
    ensures
        after.read_value(address, n) == value as nat % pow256(n),
{
    lemma_read_after_write_prefix(after, before, address, value, n, n);
}

proof fn lemma_read_after_write_prefix(after: Memory, before: Memory, address: u64, value: u128, n: nat, m: nat)
    requires
        m <= n <= 16,
        forall|a: u64|
            #![trigger after.byte(a)]
            after.byte(a) == if (offset(address, a) as nat) < n {
                byte_of(value, offset(address, a) as nat)
            } else {
                before.byte(a)
            },
    ensures
        after.read_value(address, m) == value as nat % pow256(m),
    decreases m,
{
    if m == 0 {
        assert(pow256(0) == 1);
    } else {
        let k = (m - 1) as nat;
        lemma_read_after_write_prefix(after, before, address, value, n, k);
        lemma_offset_of_plus(address, k as u64);
        lemma_pow256_positive(k);
        let p = pow256(k) as int;
        let a = addr_plus(address, k as u64);
        assert(after.byte(a) == byte_of(value, k));
        vstd::arithmetic::div_mod::lemma_breakdown(value as int, p, 256);
        assert(pow256(m) == 256 * pow256(k));
        assert(p * 256 == 256 * p) by (nonlinear_arith);
        assert(((value as nat / pow256(k)) % 256) < 256);
        assert(after.byte(a) as nat * pow256(k) == p * ((value as int / p) % 256)) by (nonlinear_arith)
            requires
                after.byte(a) as int == (value as int / p) % 256,
                p == pow256(k),
        ;
    }
}

/// The value of a hexadecimal digit, if the character is one.
pub open spec fn hex_digit(c: char) -> Option<u8> {
    let v = c as u32;
    if 48 <= v <= 57 {
        Some((v - 48) as u8)
    } else if 97 <= v <= 102 {
        Some((v - 87) as u8)
    } else if 65 <= v <= 70 {
        Some((v - 55) as u8)
    } else {
        None
    }
}

/// The value of a hexadecimal digit.
pub fn hex_value(c: char) -> (r: Option<u8>)
    ensures
        r == hex_digit(c),
        r matches Some(v) ==> v < 16,
{
    let v = c as u32;
    if v >= 48 && v <= 57 {
        Some((v - 48) as u8)
    } else if v >= 97 && v <= 102 {
        Some((v - 87) as u8)
    } else if v >= 65 && v <= 70 {
        Some((v - 55) as u8)
    } else {
        None
    }
}

/// What a line of a `.yo` file, the output of the Y86-64 assembler, gives: bytes
/// to store from an address on, nothing, or an error.
pub enum YoLine {
    Bytes(nat, Seq<u8>),
    Skip,
    Bad,
}

/// A line in the form that holds bytes, such as `0x000: 30f40001000000000000 | ...`:
/// `0x`, three address digits, `: `, and ` |` in the 28th and 29th columns.
pub open spec fn yo_data_form(line: Seq<char>) -> bool {
    &&& line.len() >= 29
    &&& line[0] == '0'
    &&& line[1] == 'x'
    &&& line[5] == ':'
    &&& line[6] == ' '
    &&& line[27] == ' '
    &&& line[28] == '|'
}

/// A line that starts with 28 spaces and `|`: a comment that holds no bytes.
pub open spec fn yo_comment_form(line: Seq<char>) -> bool {
    &&& line.len() >= 29
    &&& forall|i: int| 0 <= i < 28 ==> line[i] == ' '
    &&& line[28] == '|'
}

/// The bytes written as pairs of hexadecimal digits from column `i` of a line of
/// data form up to a space or the 28th column; `None` if a pair is not hexadecimal.
pub open spec fn yo_bytes(line: Seq<char>, i: nat) -> Option<Seq<u8>>
    recommends
        yo_data_form(line),
    decreases 28 - i,
{
    if i >= 27 || line[i as int] == ' ' {
        Some(Seq::empty())
    } else {
        match (hex_digit(line[i as int]), hex_digit(line[i + 1 as int])) {
            (Some(h), Some(l)) => match yo_bytes(line, i + 2) {
                Some(rest) => Some(seq![(h * 16 + l) as u8] + rest),
                None => None,
            },
            _ => None,
        }
    }
}

/// What a line of a `.yo` file gives. A line of data form gives its bytes, at its
/// address, unless the address or a byte is not hexadecimal; any other line is
/// skipped, unless it holds `|` and is not a comment.
pub open spec fn yo_line(line: Seq<char>) -> YoLine {
    if yo_data_form(line) {
        match (hex_digit(line[2]), hex_digit(line[3]), hex_digit(line[4]), yo_bytes(line, 7)) {
            (Some(a), Some(b), Some(c), Some(bs)) => YoLine::Bytes((a * 256 + b * 16 + c) as nat, bs),
            _ => YoLine::Bad,
        }
    } else if line.contains('|') && !yo_comment_form(line) {
        YoLine::Bad
    } else {
        YoLine::Skip
    }
}

/// A hexadecimal digit's value is the digit's value in base 16.
proof fn lemma_hex_digit_value(c: char)
    ensures
        hex_digit(c) matches Some(d) ==> d as nat == crate::lexer::digit_value(c) && crate::lexer::spec_is_hexadecimal_char(c),
{
}

/// A line of data `0xXYZ: ...` of a `.yo` file gives its bytes from the address that
/// the three hexadecimal digits `XYZ` write in base 16.
pub proof fn law_yo_address(line: Seq<char>)
    ensures
        yo_line(line) matches YoLine::Bytes(a, bs) ==> a == crate::lexer::digits_value(line.subrange(2, 5), 16) && (
        forall|i: int| 2 <= i < 5 ==> crate::lexer::spec_is_hexadecimal_char(#[trigger] line[i])),
{
    if yo_line(line) is Bytes {
        lemma_hex_digit_value(line[2]);
        lemma_hex_digit_value(line[3]);
        lemma_hex_digit_value(line[4]);
        let d = line.subrange(2, 5);
        let d2 = d.drop_last();
        let d1 = d2.drop_last();
        let d0 = d1.drop_last();
        assert(d0 =~= Seq::<char>::empty());
        assert(d1.last() == line[2]);
        assert(d2.last() == line[3]);
        assert(d.last() == line[4]);
        assert(crate::lexer::digits_value(d0, 16) == 0);
        assert(crate::lexer::digits_value(d1, 16) == crate::lexer::digit_value(line[2]));
        assert(crate::lexer::digits_value(d2, 16) == crate::lexer::digit_value(line[2]) * 16 + crate::lexer::digit_value(
            line[3],
        ));
        assert(crate::lexer::digits_value(d, 16) == (crate::lexer::digit_value(line[2]) * 16 + crate::lexer::digit_value(
            line[3],
        )) * 16 + crate::lexer::digit_value(line[4]));
    }
}

/// The digits of a `.yo` line from column `i` on give bytes pair by pair: byte `j` is
/// the number that the two hexadecimal digits at `i + 2j` write in base 16.
pub proof fn law_yo_bytes(line: Seq<char>, i: nat)
    requires
        yo_data_form(line),
    ensures
        yo_bytes(line, i) matches Some(bs) ==> forall|j: int|
            0 <= j < bs.len() ==> #[trigger] bs[j] as nat == crate::lexer::digits_value(
                line.subrange(i + 2 * j, i + 2 * j + 2),
                16,
            ),
    decreases 28 - i,
{
    if i < 27 && line[i as int] != ' ' {
        if let (Some(h), Some(l)) = (hex_digit(line[i as int]), hex_digit(line[i + 1 as int])) {
            law_yo_bytes(line, i + 2);
            if let Some(rest) = yo_bytes(line, i + 2) {
                lemma_hex_digit_value(line[i as int]);
                lemma_hex_digit_value(line[i + 1 as int]);
                let bs = seq![(h * 16 + l) as u8] + rest;
                assert forall|j: int| 0 <= j < bs.len() implies #[trigger] bs[j] as nat == crate::lexer::digits_value(
                    line.subrange(i + 2 * j, i + 2 * j + 2),
                    16,
                ) by {
                    if j == 0 {
                        let d = line.subrange(i as int, i + 2int);
                        assert(d.drop_last().drop_last() =~= Seq::<char>::empty());
                        assert(d.drop_last().last() == line[i as int]);
                        assert(d.last() == line[i + 1int]);
                        let d1 = d.drop_last();
                        assert(crate::lexer::digits_value(d1.drop_last(), 16) == 0);
                        assert(crate::lexer::digits_value(d1, 16) == crate::lexer::digit_value(line[i as int]));
                        assert(crate::lexer::digits_value(d, 16) == crate::lexer::digit_value(line[i as int]) * 16
                            + crate::lexer::digit_value(line[i + 1int]));
                    } else {
                        assert(bs[j] == rest[j - 1]);
                        assert((i + 2) + 2 * (j - 1) == i + 2 * j);
                    }
                }
            }
        }
    }
}

/// Memory is little-endian: of a value read from `address`, the lowest byte is the byte
/// at `address`, and reading one byte more adds the next byte above the others.
pub proof fn law_little_endian(m: Memory, address: u64, n: nat)
    requires
        n >= 1,
    ensures
        m.read_value(address, n) % 256 == m.byte(address) as nat,
        m.read_value(address, n + 1) == m.read_value(address, n) + m.byte(addr_plus(address, n as u64)) as nat
            * pow256(n),
        m.read_value(address, n) < pow256(n),
    decreases n,
{
    if n == 1 {
        assert(m.read_value(address, 0) == 0);
        assert(pow256(0) == 1);
        assert(addr_plus(address, 0) == address) by (bit_vector);
        assert(pow256(1) == 256 * pow256(0));
    } else {
        law_little_endian(m, address, (n - 1) as nat);
        let p = pow256((n - 1) as nat);
        let r = m.read_value(address, (n - 1) as nat);
        let b = m.byte(addr_plus(address, (n - 1) as u64)) as nat;
        assert(pow256((n - 1) as nat) == 256 * pow256((n - 2) as nat));
        assert(m.read_value(address, n) == r + b * p);
        vstd::arithmetic::div_mod::lemma_mod_multiples_vanish((b * pow256((n - 2) as nat)) as int, r as int, 256);
        assert(b * p == 256 * (b * pow256((n - 2) as nat))) by (nonlinear_arith)
            requires
                p == 256 * pow256((n - 2) as nat),
        ;
        assert(r + b * p < p * 256) by (nonlinear_arith)
            requires
                r < p,
                b < 256,
        ;
        assert(pow256(n) == 256 * p);
    }
}

/// Memory with bytes stored from an address on.
pub open spec fn store_bytes(m: Map<u64, u8>, address: nat, bs: Seq<u8>) -> Map<u64, u8>
    decreases bs.len(),
{
    if bs.len() == 0 {
        m
    } else {
        store_bytes(m, address, bs.drop_last()).insert((address + bs.len() - 1) as u64, bs.last())
    }
}

/// Storing bytes from an address puts byte `j` at the address `j` places on, and leaves
/// every address outside them as it was.
pub proof fn law_store_bytes(m: Map<u64, u8>, address: nat, bs: Seq<u8>)
    requires
        address + bs.len() <= u64::MAX + 1,
    ensures
        forall|j: int|
            0 <= j < bs.len() ==> #[trigger] store_bytes(m, address, bs).dom().contains((address + j) as u64)
                && store_bytes(m, address, bs)[(address + j) as u64] == bs[j],
        forall|a: u64|
            !(address <= a < address + bs.len()) ==> #[trigger] store_bytes(m, address, bs).dom().contains(a)
                == m.dom().contains(a) && (m.dom().contains(a) ==> store_bytes(m, address, bs)[a] == m[a]),
    decreases bs.len(),
{
    if bs.len() > 0 {
        law_store_bytes(m, address, bs.drop_last());
        assert forall|j: int| 0 <= j < bs.len() implies #[trigger] store_bytes(m, address, bs).dom().contains(
            (address + j) as u64,
        ) && store_bytes(m, address, bs)[(address + j) as u64] == bs[j] by {
            if j < bs.len() - 1 {
                assert(store_bytes(m, address, bs.drop_last()).dom().contains((address + j) as u64));
                assert(bs.drop_last()[j] == bs[j]);
            }
        }
        assert forall|a: u64| !(address <= a < address + bs.len()) implies #[trigger] store_bytes(m, address, bs).dom().contains(
            a,
        ) == m.dom().contains(a) && (m.dom().contains(a) ==> store_bytes(m, address, bs)[a] == m[a]) by {
            assert(((address + bs.len() - 1) as u64) as int == address + bs.len() - 1);
            assert(store_bytes(m, address, bs.drop_last()).dom().contains(a) == m.dom().contains(a));
        }
    }
}

/// Memory after the lines of a `.yo` file are loaded, one after another.
pub open spec fn yo_load(m: Map<u64, u8>, lines: Seq<Seq<char>>) -> Map<u64, u8>
    decreases lines.len(),
{
    if lines.len() == 0 {
        m
    } else {
        let before = yo_load(m, lines.drop_last());
        match yo_line(lines.last()) {
            YoLine::Bytes(a, bs) => store_bytes(before, a, bs),
            _ => before,
        }
    }
}

/// `done` followed by the bytes of `rest`, if there are any.
pub open spec fn prepend_bytes(done: Seq<u8>, rest: Option<Seq<u8>>) -> Option<Seq<u8>> {
    match rest {
        Some(r) => Some(done + r),
        None => None,
    }
}

/// Whether a line starts with the 28 spaces and `|` of a line of a `.yo` file that
/// holds no bytes.
fn is_comment_line(line: &Vec<char>) -> (r: bool)
    ensures
        r == yo_comment_form(line@),
{
    if line.len() < 29 {
        return false;
    }
    let mut i: usize = 0;
    while i < 28
        invariant
            i <= 28,
            line@.len() >= 29,
            forall|j: int| 0 <= j < i ==> line@[j] == ' ',
        decreases 28 - i,
    {
        if line[i] != ' ' {
            return false;
        }
        i = i + 1;
    }
    line[28] == '|'
}

fn has_bar(line: &Vec<char>) -> (r: bool)
    ensures
        r == line@.contains('|'),
{
    let mut i: usize = 0;
    while i < line.len()
        invariant
            i <= line@.len(),
            forall|j: int| 0 <= j < i ==> line@[j] != '|',
        decreases line@.len() - i,
    {
        if line[i] == '|' {
            assert(line@[i as int] == '|');
            return true;
        }
        i = i + 1;
    }
    false
}

impl Memory {
    /// Loads one line of a `.yo` file: see `yo_line`.
    fn load_line_y86(&mut self, line: &Vec<char>) -> (r: Result<(), ()>)
        ensures
            match yo_line(line@) {
                YoLine::Bytes(a, bs) => r is Ok && final(self)@ == store_bytes(old(self)@, a, bs),
                YoLine::Skip => r is Ok && final(self)@ == old(self)@,
                YoLine::Bad => r is Err,
            },
    {
        let n = line.len();
        if n >= 29 && line[0] == '0' && line[1] == 'x' && line[5] == ':' && line[6] == ' ' && line[27] == ' '
            && line[28] == '|' {
            match (hex_value(line[2]), hex_value(line[3]), hex_value(line[4])) {
                (Some(a), Some(b), Some(c)) => {
                    let ghost address: nat = (a * 256 + b * 16 + c) as nat;
                    let ghost start = self@;
                    let mut loc: u64 = (a as u64) * 256 + (b as u64) * 16 + (c as u64);
                    let ghost mut done: Seq<u8> = Seq::empty();
                    let mut i: usize = 7;
                    assert(prepend_bytes(done, yo_bytes(line@, 7)) =~= yo_bytes(line@, 7));
                    while i < 27 && line[i] != ' '
                        invariant
                            7 <= i <= 28,
                            yo_data_form(line@),
                            address <= 0xfff,
                            loc == address + done.len(),
                            done.len() <= (i - 7) as nat,
                            yo_bytes(line@, 7) == prepend_bytes(done, yo_bytes(line@, i as nat)),
                            self@ == store_bytes(start, address, done),
                        decreases 28 - i,
                    {
                        match (hex_value(line[i]), hex_value(line[i + 1])) {
                            (Some(high), Some(low)) => {
                                let byte = high * 16 + low;
                                self.set(loc, byte);
                                proof {
                                    let rest = yo_bytes(line@, (i + 2) as nat);
                                    if let Some(tail) = rest {
                                        assert(done + (seq![byte] + tail) =~= done.push(byte) + tail);
                                    }
                                    assert(done.push(byte).drop_last() =~= done);
                                    done = done.push(byte);
                                }
                                loc = loc + 1;
                                i = i + 2;
                            },
                            _ => {
                                return Err(());
                            },
                        }
                    }
                    assert(done + Seq::<u8>::empty() =~= done);
                    Ok(())
                },
                _ => Err(()),
            }
        } else if has_bar(line) && !is_comment_line(line) {
            Err(())
        } else {
            Ok(())
        }
    }

    /// Loads the bytes of a `.yo` file, the output of the Y86-64 assembler, line by
    /// line (see `yo_line`). A file without lines, or with a line that is in error,
    /// gives an error; the lines before that one are loaded.
    pub fn load_from_y86(&mut self, text: &str) -> (r: Result<(), Error>)
        ensures
            spec_lines(text@).len() == 0 ==> r == Err::<(), Error>(Error::EmptyFile()),
            forall|i: int|
                0 <= i < spec_lines(text@).len() && yo_line(#[trigger] spec_lines(text@)[i]) is Bad && (forall|j: int|
                    0 <= j < i ==> !(yo_line(spec_lines(text@)[j]) is Bad)) ==> (r matches Err(Error::UnparseableLine(
                    s,
                )) && s@ == spec_lines(text@)[i]),
            spec_lines(text@).len() > 0 && (forall|j: int|
                0 <= j < spec_lines(text@).len() ==> !(yo_line(#[trigger] spec_lines(text@)[j]) is Bad)) ==> r is Ok
                && final(self)@ == yo_load(old(self)@, spec_lines(text@)),
    {
        let chars = crate::text::chars_of(text);
        let lines = crate::io::split_lines(&chars);
        let ghost all = lines@.map_values(|l: Vec<char>| l@);
        let ghost start = self@;
        let mut i: usize = 0;
        assert(all.take(0) =~= Seq::<Seq<char>>::empty());
        while i < lines.len()
            invariant
                i <= lines@.len(),
                all == lines@.map_values(|l: Vec<char>| l@),
                all == spec_lines(text@),
                forall|j: int| 0 <= j < i ==> !(yo_line(#[trigger] all[j]) is Bad),
                self@ == yo_load(start, all.take(i as int)),
            decreases lines@.len() - i,
        {
            assert(all[i as int] == lines@[i as int]@);
            assert(all.take(i + 1).drop_last() =~= all.take(i as int));
            match self.load_line_y86(&lines[i]) {
                Ok(()) => {},
                Err(()) => {
                    return Err(Error::UnparseableLine(crate::text::string_from_chars(lines[i].as_slice())));
                },
            }
            i = i + 1;
        }
        if lines.len() == 0 {
            return Err(Error::EmptyFile());
        }
        assert(all.take(lines@.len() as int) =~= all);
        Ok(())
    }

    /// Appends the cells of columns `from` to 15 of a row.
    fn push_row_cells(&self, out: &mut String, row: u64, from: u64)
        requires
            row < row_count(),
            from <= 16,
        ensures
            final(out)@ == old(out)@ + row_cells(self@, row as nat, from as nat, 16),
    {
        proof {
            use_type_invariant(self);
            self.lemma_view();
        }
        let mut c: u64 = from;
        while c < 16
            invariant
                from <= c <= 16,
                row < row_count(),
                self.wf(),
                self.addresses@.no_duplicates(),
                self@.dom() == self.addresses@.to_set(),
                forall|i: int| 0 <= i < self.addresses@.len() ==> #[trigger] self@[self.addresses@[i]] == self.bytes@[i],
                out@ == old(out)@ + row_cells(self@, row as nat, from as nat, c as nat),
            decreases 16 - c,
        {
            let a = row * 16 + c;
            match self.find(a) {
                Ok(i) => {
                    crate::text::push_str(out, " ");
                    crate::text::push_hex_padded(out, self.bytes[i] as u128, 2);
                    proof {
                        assert(self.addresses@.contains(a));
                    }
                },
                Err(_) => {
                    crate::text::push_str(out, "   ");
                    proof {
                        if self.addresses@.contains(a) {
                            let j = self.addresses@.index_of(a);
                            assert(self.addresses@[j] == a);
                        }
                        assert(!self@.dom().contains(a));
                    }
                },
            }
            if c == 3 || c == 11 {
                crate::text::push_str(out, " ");
            } else if c == 7 {
                crate::text::push_str(out, "  ");
            } else if c == 15 {
                crate::text::push_str(out, "    |\n");
            }
            proof {
                assert(row_cells(self@, row as nat, from as nat, (c + 1) as nat) == row_cells(
                    self@,
                    row as nat,
                    from as nat,
                    c as nat,
                ) + byte_cell(self@, a) + column_gap(c as nat));
            }
            c = c + 1;
        }
    }

    /// Appends a row from column `from` on; its label when it starts at the first column.
    fn push_row(&self, out: &mut String, row: u64, from: u64)
        requires
            row < row_count(),
            from < 16,
        ensures
            final(out)@ == old(out)@ + row_text(self@, row as nat, from as nat),
    {
        if from == 0 {
            crate::text::push_str(out, "|  0x");
            crate::text::push_hex_padded(out, row as u128, 7);
            crate::text::push_str(out, "_:  ");
        }
        self.push_row_cells(out, row, from);
    }

    /// The lowest address written is the first in order.
    proof fn lemma_first_address(self)
        requires
            self.wf(),
            self.addresses@.len() > 0,
        ensures
            first_address(self@) == self.addresses@[0],
    {
        self.lemma_view();
        let first = self.addresses@[0];
        assert(self@.dom().contains(first));
        assert forall|g: u64| #[trigger] self@.dom().contains(g) implies first <= g by {
            let j = self.addresses@.index_of(g);
            if j > 0 {
                assert(self.addresses@[0] < self.addresses@[j]);
            }
        }
        let f = first_address(self@);
        assert(f <= first && first <= f);
    }

    /// No row from `lo` up to that of the address at `next` was written, when the
    /// addresses before `next` lie below row `lo`.
    proof fn lemma_rows_unused(self, lo: nat, next: int, hi: nat)
        requires
            self.wf(),
            0 <= next <= self.addresses@.len(),
            forall|j: int| 0 <= j < next ==> self.addresses@[j] < lo * 16,
            next < self.addresses@.len() ==> hi == self.addresses@[next] / 16,
            next == self.addresses@.len() ==> hi == row_count(),
        ensures
            forall|r: nat| lo <= r < hi ==> !row_used(self@, r),
    {
        self.lemma_view();
        assert forall|r: nat| lo <= r < hi implies !row_used(self@, r) by {
            if row_used(self@, r) {
                let a = choose|a: u64| #[trigger] self@.dom().contains(a) && a / 16 == r;
                assert(self.addresses@.contains(a));
                let j = self.addresses@.index_of(a);
                if j < next {
                    assert(self.addresses@[j] < lo * 16);
                } else if j > next {
                    assert(self.addresses@[next] < self.addresses@[j]);
                }
            }
        }
    }

    /// The bytes in memory, sixteen to a line with their addresses, as the Y86-64
    /// tools print them.
    #[verifier::spinoff_prover]
    #[verifier::rlimit(40)]
    pub fn dump_memory_y86(&self) -> (r: String)
        ensures
            r@ == memory_dump(self@),
    {
        proof {
            use_type_invariant(self);
            self.lemma_view();
        }
        let mut out = String::new();
        crate::text::push_str(
            &mut out,
            "| used memory:   _0 _1 _2 _3  _4 _5 _6 _7   _8 _9 _a _b  _c _d _e _f    |\n",
        );
        let n = self.addresses.len();
        if n == 0 {
            return out;
        }
        let first = self.addresses[0];
        proof {
            self.lemma_first_address();
        }
        let first_row = first / 16;
        self.push_row(&mut out, first_row, first % 16);
        let ghost lo0 = first_row as nat + 1;
        let ghost before = out@;
        assert(out@ == before + used_rows_text(self@, lo0, lo0));
        let mut row = first_row;
        loop
            invariant
                self.wf(),
                n == self.addresses@.len(),
                first_row <= row < row_count(),
                lo0 == first_row + 1,
                out@ == before + used_rows_text(self@, lo0, row as nat + 1),
            ensures
                forall|j: int| 0 <= j < n ==> self.addresses@[j] < (row as nat + 1) * 16,
            decreases row_count() - row,
        {
            if row == 0x0fff_ffff_ffff_ffff {
                break;
            }
            let start = (row + 1) * 16;
            let next = match self.find(start) {
                Ok(i) => i,
                Err(i) => i,
            };
            proof {
                assert forall|j: int| 0 <= j < next implies self.addresses@[j] < start by {
                    if self.addresses@[next as int] == start {
                        assert(self.addresses@[j] < self.addresses@[next as int]);
                    }
                }
            }
            if next == n {
                break;
            }
            let new_row = self.addresses[next] / 16;
            proof {
                self.lemma_rows_unused(row as nat + 1, next as int, new_row as nat);
                lemma_unused_rows(self@, lo0, row as nat + 1, new_row as nat);
                self.lemma_view();
                assert(self@.dom().contains(self.addresses@[next as int]));
                assert(row_used(self@, new_row as nat));
            }
            let ghost mid = out@;
            self.push_row(&mut out, new_row, 0);
            proof {
                assert(used_rows_text(self@, lo0, new_row as nat + 1) == used_rows_text(self@, lo0, new_row as nat)
                    + row_text(self@, new_row as nat, 0));
                assert(out@ =~= before + used_rows_text(self@, lo0, new_row as nat + 1));
            }
            row = new_row;
        }
        proof {
            self.lemma_rows_unused(row as nat + 1, n as int, row_count());
            lemma_unused_rows(self@, lo0, row as nat + 1, row_count());
            self.lemma_first_address();
            self.lemma_view();
        }
        out
    }
}

proof fn lemma_pow256_monotone(a: nat, b: nat)
    requires
        a <= b,
    ensures
        pow256(a) <= pow256(b),
    decreases b - a,
{
    if a < b {
        lemma_pow256_monotone(a, (b - 1) as nat);
        lemma_pow256_positive((b - 1) as nat);
    }
}

} // verus!
