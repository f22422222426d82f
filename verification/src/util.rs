//! Fixed-width ASCII-decimal numbers, as the leader and the directory hold them.

use vstd::prelude::*;

verus! {

/// A truth value that may be unknown.
#[derive(Debug, PartialEq, Eq, Clone, Copy, Structural)]
pub enum TriStateBool {
    True,
    False,
    Null,
}

impl TriStateBool {
    /// Negation that leaves the unknown value unknown.
    pub open spec fn negated(self) -> TriStateBool {
        match self {
            TriStateBool::True => TriStateBool::False,
            TriStateBool::False => TriStateBool::True,
            TriStateBool::Null => TriStateBool::Null,
        }
    }
}

impl core::ops::Not for TriStateBool {
    type Output = TriStateBool;

    fn not(self) -> (r: TriStateBool)
        ensures
            r == self.negated(),
    {
        match self {
            TriStateBool::True => TriStateBool::False,
            TriStateBool::False => TriStateBool::True,
            TriStateBool::Null => TriStateBool::Null,
        }
    }
}

impl vstd::std_specs::ops::NotSpecImpl for TriStateBool {
    open spec fn obeys_not_spec() -> bool {
        true
    }

    open spec fn not_req(self) -> bool {
        true
    }

    open spec fn not_spec(self) -> TriStateBool {
        self.negated()
    }
}

/// The byte that spells the digit zero.
pub const ASCII_ZERO: u8 = 48;

/// The number of `digits` ones in a row: 0, 1, 11, 111, ...
pub open spec fn repunit(digits: nat) -> nat
    decreases digits,
{
    if digits == 0 {
        0
    } else {
        10 * repunit((digits - 1) as nat) + 1
    }
}

/// Ten to the power `e`.
pub open spec fn pow10(e: nat) -> nat
    decreases e,
{
    if e == 0 {
        1
    } else {
        10 * pow10((e - 1) as nat)
    }
}

/// Whether every byte of `s` is an ASCII digit.
pub open spec fn is_decimal(s: Seq<u8>) -> bool {
    forall|i: int| 0 <= i < s.len() ==> 48 <= #[trigger] s[i] <= 57
}

/// What `s` spells when each byte `b` stands for the digit `b - '0'`, the
/// first byte being the most significant. Bytes below `'0'` count as negative
/// digits, so the sum can be negative.
pub open spec fn decimal_sum(s: Seq<u8>) -> int
    decreases s.len(),
{
    if s.len() == 0 {
        0
    } else {
        10 * decimal_sum(s.drop_last()) + (s.last() as int - 48)
    }
}

/// The number that a fixed-width field holds: `decimal_sum`, or zero where
/// that sum is negative. For a field made of digits this is the number the
/// digits spell.
pub open spec fn decimal_value(s: Seq<u8>) -> nat {
    if decimal_sum(s) < 0 {
        0
    } else {
        decimal_sum(s) as nat
    }
}

/// The `len` lowest decimal digits of `n` as ASCII bytes, most significant
/// first, padded with `'0'` on the left.
pub open spec fn decimal_digits(n: nat, len: nat) -> Seq<u8>
    decreases len,
{
    if len == 0 {
        Seq::empty()
    } else {
        decimal_digits(n / 10, (len - 1) as nat).push((48 + n % 10) as u8)
    }
}

/// The sum of the raw byte values of `s`, weighted by powers of ten.
pub open spec fn weighted_sum(s: Seq<u8>) -> nat
    decreases s.len(),
{
    if s.len() == 0 {
        0
    } else {
        10 * weighted_sum(s.drop_last()) + s.last() as nat
    }
}

/// The weighted sum of the bytes is the decimal sum plus one `'0'` per place.
pub proof fn lemma_weighted_sum(s: Seq<u8>)
    ensures
        weighted_sum(s) == decimal_sum(s) + 48 * repunit(s.len()),
        weighted_sum(s) <= 255 * repunit(s.len()),
    decreases s.len(),
{
    if s.len() > 0 {
        lemma_weighted_sum(s.drop_last());
    }
}

/// A field of five bytes holds a number of at most 2,299,977: what five
/// bytes of 255 spell.
pub proof fn lemma_decimal_value_bound(s: Seq<u8>)
    requires
        s.len() == 5,
    ensures
        decimal_value(s) <= 2_299_977,
{
    lemma_weighted_sum(s);
    reveal_with_fuel(repunit, 6);
    assert(repunit(5) == 11111);
}

/// Reads the first five bytes of `slice` as a decimal number.
pub fn parse_usize5(slice: &[u8]) -> (n: usize)
    requires
        slice.len() >= 5,
    ensures
        n == decimal_value(slice@.subrange(0, 5)),
        n <= 2_299_977,
{
    let n0: usize = slice[0] as usize;
    let n1: usize = slice[1] as usize;
    let n2: usize = slice[2] as usize;
    let n3: usize = slice[3] as usize;
    let n4: usize = slice[4] as usize;
    let zero: usize = ASCII_ZERO as usize;
    let raw: usize = n0 * 10000 + n1 * 1000 + n2 * 100 + n3 * 10 + n4;
    proof {
        let s = slice@.subrange(0, 5);
        let s4 = s.drop_last();
        let s3 = s4.drop_last();
        let s2 = s3.drop_last();
        let s1 = s2.drop_last();
        assert(weighted_sum(s1.drop_last()) == 0);
        assert(weighted_sum(s1) == n0);
        assert(weighted_sum(s2) == 10 * n0 + n1);
        assert(weighted_sum(s3) == 100 * n0 + 10 * n1 + n2);
        assert(weighted_sum(s4) == 1000 * n0 + 100 * n1 + 10 * n2 + n3);
        assert(weighted_sum(s) == raw);
        lemma_weighted_sum(s);
        reveal_with_fuel(repunit, 6);
        assert(repunit(5) == 11111);
    }
    raw.saturating_sub(10000 * zero + 1000 * zero + 100 * zero + 10 * zero + zero)
}

/// Reads the first four bytes of `slice` as a decimal number.
pub fn parse_usize4(slice: &[u8]) -> (n: usize)
    requires
        slice.len() >= 4,
    ensures
        n == decimal_value(slice@.subrange(0, 4)),
        n <= 229_977,
{
    let n0: usize = slice[0] as usize;
    let n1: usize = slice[1] as usize;
    let n2: usize = slice[2] as usize;
    let n3: usize = slice[3] as usize;
    let zero: usize = ASCII_ZERO as usize;
    let raw: usize = n0 * 1000 + n1 * 100 + n2 * 10 + n3;
    proof {
        let s = slice@.subrange(0, 4);
        let s3 = s.drop_last();
        let s2 = s3.drop_last();
        let s1 = s2.drop_last();
        assert(weighted_sum(s1.drop_last()) == 0);
        assert(weighted_sum(s1) == n0);
        assert(weighted_sum(s2) == 10 * n0 + n1);
        assert(weighted_sum(s3) == 100 * n0 + 10 * n1 + n2);
        assert(weighted_sum(s) == raw);
        lemma_weighted_sum(s);
        reveal_with_fuel(repunit, 5);
        assert(repunit(4) == 1111);
    }
    raw.saturating_sub(1000 * zero + 100 * zero + 10 * zero + zero)
}

/// Reads the first three bytes of `slice` as a decimal number.
pub fn parse_usize3(slice: &[u8]) -> (n: usize)
    requires
        slice.len() >= 3,
    ensures
        n == decimal_value(slice@.subrange(0, 3)),
        n <= 22_977,
{
    let n0: usize = slice[0] as usize;
    let n1: usize = slice[1] as usize;
    let n2: usize = slice[2] as usize;
    let zero: usize = ASCII_ZERO as usize;
    let raw: usize = n0 * 100 + n1 * 10 + n2;
    proof {
        let s = slice@.subrange(0, 3);
        let s2 = s.drop_last();
        let s1 = s2.drop_last();
        assert(weighted_sum(s1.drop_last()) == 0);
        assert(weighted_sum(s1) == n0);
        assert(weighted_sum(s2) == 10 * n0 + n1);
        assert(weighted_sum(s) == raw);
        lemma_weighted_sum(s);
        reveal_with_fuel(repunit, 4);
        assert(repunit(3) == 111);
    }
    raw.saturating_sub(100 * zero + 10 * zero + zero)
}

/// Reads a field of at most five bytes as a decimal number.
pub fn parse_usize(slice: &[u8]) -> (n: usize)
    requires
        slice.len() < 6,
    ensures
        n == decimal_value(slice@),
        n <= 2_299_977,
{
    let mut raw: usize = 0;
    let mut bias: usize = 0;
    let mut i: usize = 0;
    proof {
        reveal_with_fuel(repunit, 6);
        assert(slice@.subrange(0, 0) =~= Seq::<u8>::empty());
    }
    while i < slice.len()
        invariant
            0 <= i <= slice@.len() < 6,
            raw == weighted_sum(slice@.subrange(0, i as int)),
            bias == 48 * repunit(i as nat),
            raw <= 255 * repunit(i as nat),
        decreases slice@.len() - i,
    {
        proof {
            reveal_with_fuel(repunit, 6);
            let next = slice@.subrange(0, i + 1);
            assert(next.drop_last() =~= slice@.subrange(0, i as int));
            lemma_weighted_sum(next);
        }
        raw = raw * 10 + slice[i] as usize;
        bias = bias * 10 + ASCII_ZERO as usize;
        i += 1;
    }
    proof {
        reveal_with_fuel(repunit, 6);
        assert(slice@.subrange(0, i as int) =~= slice@);
        lemma_weighted_sum(slice@);
    }
    raw.saturating_sub(bias)
}

/// A field of digits spells a number below ten to the power of its width.
pub proof fn lemma_decimal_sum_digits(s: Seq<u8>)
    requires
        is_decimal(s),
    ensures
        0 <= decimal_sum(s) < pow10(s.len()),
        decimal_value(s) == decimal_sum(s),
    decreases s.len(),
{
    if s.len() > 0 {
        lemma_decimal_sum_digits(s.drop_last());
    }
}

/// The digits that `decimal_digits` writes are digits, as many as asked for.
pub proof fn lemma_decimal_digits_shape(n: nat, len: nat)
    ensures
        decimal_digits(n, len).len() == len,
        is_decimal(decimal_digits(n, len)),
    decreases len,
{
    if len > 0 {
        lemma_decimal_digits_shape(n / 10, (len - 1) as nat);
    }
}

/// Reading what was written gives the number back, where the number fits
/// the width.
pub proof fn lemma_decimal_digits_value(n: nat, len: nat)
    requires
        n < pow10(len),
    ensures
        decimal_value(decimal_digits(n, len)) == n,
        decimal_sum(decimal_digits(n, len)) == n,
    decreases len,
{
    if len > 0 {
        lemma_decimal_digits_value(n / 10, (len - 1) as nat);
        let d = decimal_digits(n, len);
        assert(d.drop_last() =~= decimal_digits(n / 10, (len - 1) as nat));
    }
}

/// Writing what was read gives the field back, where the field is made of
/// digits.
pub proof fn lemma_decimal_value_digits(s: Seq<u8>)
    requires
        is_decimal(s),
    ensures
        decimal_digits(decimal_value(s), s.len()) == s,
    decreases s.len(),
{
    lemma_decimal_sum_digits(s);
    if s.len() > 0 {
        let head = s.drop_last();
        lemma_decimal_sum_digits(head);
        lemma_decimal_value_digits(head);
        let a = decimal_sum(head);
        let d = s.last() as int - 48;
        assert(decimal_sum(s) == 10 * a + d);
        assert((10 * a + d) / 10 == a && (10 * a + d) % 10 == d);
        assert(decimal_digits(decimal_value(s), s.len()) =~= head.push(s.last()));
        assert(head.push(s.last()) =~= s);
    }
}

/// `n` with its `k` lowest decimal digits cut off.
pub open spec fn cut_digits(n: nat, k: nat) -> nat
    decreases k,
{
    if k == 0 {
        n
    } else {
        cut_digits(n / 10, (k - 1) as nat)
    }
}

/// To cut one digit more is to divide by ten once more.
pub proof fn lemma_cut_digits_step(n: nat, k: nat)
    ensures
        cut_digits(n, k + 1) == cut_digits(n, k) / 10,
    decreases k,
{
    if k > 0 {
        lemma_cut_digits_step(n / 10, (k - 1) as nat);
    } else {
        assert(cut_digits(n, 1) == cut_digits(n / 10, 0));
    }
}

/// The digits of a width are the next digit followed by the digits of the
/// width below.
pub proof fn lemma_decimal_digits_prepend(n: nat, k: nat)
    ensures
        decimal_digits(n, k + 1) == seq![(48 + cut_digits(n, k) % 10) as u8] + decimal_digits(
            n,
            k,
        ),
    decreases k,
{
    if k == 0 {
        assert(decimal_digits(n / 10, 0) =~= Seq::<u8>::empty());
        assert(decimal_digits(n, 1) =~= seq![(48 + n % 10) as u8] + decimal_digits(n, 0));
    } else {
        lemma_decimal_digits_prepend(n / 10, (k - 1) as nat);
        let low = (48 + n % 10) as u8;
        let high = (48 + cut_digits(n, k) % 10) as u8;
        assert(decimal_digits(n, k + 1) =~= (seq![high] + decimal_digits(
            n / 10,
            (k - 1) as nat,
        )).push(low));
        assert(decimal_digits(n, k + 1) =~= seq![high] + decimal_digits(n, k));
    }
}

/// Appends `n` to `writer` as `len` decimal digits, zero-padded on the left.
pub fn write_usize(n: usize, len: usize, writer: &mut Vec<u8>)
    requires
        len <= 5,
        n < pow10(len as nat),
    ensures
        final(writer)@ == old(writer)@ + decimal_digits(n as nat, len as nat),
{
    let mut m: usize = n;
    let mut buf: [u8; 5] = [ASCII_ZERO, ASCII_ZERO, ASCII_ZERO, ASCII_ZERO, ASCII_ZERO];
    let mut n_len: usize = 0;
    proof {
        assert(buf@.subrange(5, 5) =~= decimal_digits(n as nat, 0));
    }
    while n_len < len
        invariant
            0 <= n_len <= len <= 5,
            m == cut_digits(n as nat, n_len as nat),
            buf@.subrange(5 - n_len, 5) == decimal_digits(n as nat, n_len as nat),
        decreases len - n_len,
    {
        proof {
            lemma_cut_digits_step(n as nat, n_len as nat);
            lemma_decimal_digits_prepend(n as nat, n_len as nat);
        }
        let ghost before = buf@;
        let digit: u8 = ASCII_ZERO + (m % 10) as u8;
        buf[4 - n_len] = digit;
        m = m / 10;
        proof {
            assert(buf@.subrange(5 - n_len, 5) =~= before.subrange(5 - n_len, 5));
            assert(buf@.subrange(4 - n_len, 5) =~= seq![digit] + buf@.subrange(5 - n_len, 5));
        }
        n_len += 1;
    }
    let ghost start = writer@;
    let mut j: usize = 5 - len;
    while j < 5
        invariant
            5 - len <= j <= 5,
            len <= 5,
            writer@ == start + buf@.subrange(5 - len, j as int),
        decreases 5 - j,
    {
        writer.push(buf[j]);
        proof {
            assert(buf@.subrange(5 - len, j + 1) =~= buf@.subrange(5 - len, j as int).push(
                buf@[j as int],
            ));
        }
        j += 1;
    }
}

} // verus!
