//! Numbers as text: decimal, and hexadecimal of a fixed width.

use vstd::prelude::*;

verus! {

/// The lower-case digit of value `d`.
pub open spec fn digit(d: int) -> char {
    if d < 10 {
        (48 + d) as char
    } else {
        (87 + d) as char
    }
}

/// `n` in decimal.
pub open spec fn decimal(n: nat) -> Seq<char>
    decreases n,
{
    if n < 10 {
        seq![digit(n as int)]
    } else {
        decimal(n / 10).push(digit((n % 10) as int))
    }
}

/// `n` in decimal, with a sign where it is negative.
pub open spec fn signed_decimal(n: int) -> Seq<char> {
    if n < 0 {
        seq!['-'] + decimal((-n) as nat)
    } else {
        decimal(n as nat)
    }
}

/// The last `width` hexadecimal digits of `n`.
pub open spec fn hex(n: nat, width: nat) -> Seq<char>
    decreases width,
{
    if width == 0 {
        seq![]
    } else {
        hex(n / 16, (width - 1) as nat).push(digit((n % 16) as int))
    }
}

/// `hex` has as many digits as it is asked for.
pub proof fn lemma_hex_len(n: nat, width: nat)
    ensures
        hex(n, width).len() == width,
    decreases width,
{
    if width > 0 {
        lemma_hex_len(n / 16, (width - 1) as nat);
    }
}

fn digit_char(d: u8) -> (r: char)
    requires
        d < 16,
    ensures
        r == digit(d as int),
{
    if d < 10 {
        (48 + d) as char
    } else {
        (87 + d) as char
    }
}

/// `n` in decimal.
pub fn decimal_text(n: u64) -> (r: String)
    ensures
        r@ == decimal(n as nat),
    decreases n,
{
    if n < 10 {
        let mut out = String::new();
        out.push(digit_char(n as u8));
        assert(out@ =~= decimal(n as nat));
        out
    } else {
        let mut out = decimal_text(n / 10);
        out.push(digit_char((n % 10) as u8));
        out
    }
}

/// `n` in decimal, with a sign where it is negative.
pub fn signed_decimal_text(n: i32) -> (r: String)
    ensures
        r@ == signed_decimal(n as int),
{
    if n < 0 {
        let mut out = String::new();
        out.push('-');
        let magnitude: u64 = (-(n as i64)) as u64;
        let digits = decimal_text(magnitude);
        out.append(digits.as_str());
        assert(out@ =~= signed_decimal(n as int));
        out
    } else {
        decimal_text(n as u64)
    }
}

/// `n` in sixteen hexadecimal digits.
pub fn hex16_text(n: u64) -> (r: String)
    ensures
        r@ == hex(n as nat, 16),
{
    let mut digits: Vec<char> = Vec::new();
    let mut rest: u64 = n;
    let mut i: usize = 0;
    assert(hex(n as nat, 16) =~= hex(rest as nat, (16 - 0) as nat) + digits@.reverse());
    while i < 16
        invariant
            i <= 16,
            i == digits@.len(),
            hex(n as nat, 16) == hex(rest as nat, (16 - i) as nat) + digits@.reverse(),
        decreases 16 - i,
    {
        let d = digit_char((rest % 16) as u8);
        let ghost before = digits@;
        digits.push(d);
        assert(hex(rest as nat, (16 - i) as nat) + before.reverse() =~= hex(
            (rest / 16) as nat,
            (16 - i - 1) as nat,
        ) + digits@.reverse());
        rest = rest / 16;
        i += 1;
    }
    assert(hex(n as nat, 16) =~= digits@.reverse());
    let mut out = String::new();
    let mut k: usize = 16;
    while k > 0
        invariant
            k <= 16,
            digits@.len() == 16,
            out@ == digits@.reverse().take(16 - k),
        decreases k,
    {
        k -= 1;
        out.push(digits[k]);
        assert(out@ =~= digits@.reverse().take(16 - k));
    }
    assert(out@ =~= digits@.reverse());
    out
}

/// The number that a list of decimal digits is.
pub open spec fn value(digits: Seq<char>) -> int
    decreases digits.len(),
{
    if digits.len() == 0 {
        0
    } else {
        10 * value(digits.drop_last()) + (digits.last() as int - '0' as int)
    }
}

/// A number is written in decimal: digits, without a needless zero in front, that read as
/// the number.
pub proof fn law_decimal_reads_back(n: nat)
    ensures
        value(decimal(n)) == n,
        decimal(n).len() > 0,
        forall|i: int| 0 <= i < decimal(n).len() ==> '0' <= #[trigger] decimal(n)[i] <= '9',
        n > 0 ==> decimal(n)[0] != '0',
    decreases n,
{
    reveal_with_fuel(value, 2);
    if n < 10 {
        assert(decimal(n).drop_last() =~= seq![]);
    } else {
        law_decimal_reads_back(n / 10);
        assert(decimal(n).drop_last() =~= decimal(n / 10));
    }
}

} // verus!
