//! Decimal numerals.

use vstd::prelude::*;
use vstd::string::*;

verus! {

/// The digit of value `d`.
pub open spec fn digit_char(d: int) -> char {
    if d == 0 {
        '0'
    } else if d == 1 {
        '1'
    } else if d == 2 {
        '2'
    } else if d == 3 {
        '3'
    } else if d == 4 {
        '4'
    } else if d == 5 {
        '5'
    } else if d == 6 {
        '6'
    } else if d == 7 {
        '7'
    } else if d == 8 {
        '8'
    } else {
        '9'
    }
}

/// The decimal numeral of `n`, without leading zeros.
pub open spec fn numeral(n: nat) -> Seq<char>
    decreases n,
{
    if n < 10 {
        seq![digit_char(n as int)]
    } else {
        numeral(n / 10).push(digit_char((n % 10) as int))
    }
}

/// The last `width` digits of `n`, with leading zeros.
pub open spec fn digits(n: nat, width: nat) -> Seq<char>
    decreases width,
{
    if width == 0 {
        Seq::empty()
    } else {
        digits(n / 10, (width - 1) as nat).push(digit_char((n % 10) as int))
    }
}

pub open spec fn pow10(n: nat) -> nat
    decreases n,
{
    if n == 0 {
        1
    } else {
        10 * pow10((n - 1) as nat)
    }
}

/// The decimal numeral of an integer, with a minus sign where it is negative.
pub open spec fn signed_numeral(i: int) -> Seq<char> {
    if i < 0 {
        seq!['-'] + numeral((-i) as nat)
    } else {
        numeral(i as nat)
    }
}

/// The numeral of an integer, filled up with zeros behind the sign to at least
/// `width` characters.
pub open spec fn padded(i: int, width: nat) -> Seq<char> {
    let n = numeral(if i < 0 {
        (-i) as nat
    } else {
        i as nat
    });
    let room = if i < 0 {
        width - 1
    } else {
        width as int
    };
    let filled = if n.len() < room {
        Seq::new((room - n.len()) as nat, |k: int| '0') + n
    } else {
        n
    };
    if i < 0 {
        seq!['-'] + filled
    } else {
        filled
    }
}

pub proof fn lemma_digits_len(n: nat, width: nat)
    ensures
        digits(n, width).len() == width,
    decreases width,
{
    if width > 0 {
        lemma_digits_len(n / 10, (width - 1) as nat);
    }
}


fn push_digit(out: &mut String, d: u8)
    requires
        d < 10,
    ensures
        final(out)@ == old(out)@.push(digit_char(d as int)),
{
    let ghost base = out@;
    proof {
        reveal_strlit("0");
        reveal_strlit("1");
        reveal_strlit("2");
        reveal_strlit("3");
        reveal_strlit("4");
        reveal_strlit("5");
        reveal_strlit("6");
        reveal_strlit("7");
        reveal_strlit("8");
        reveal_strlit("9");
    }
    if d == 0 {
        out.append("0");
    } else if d == 1 {
        out.append("1");
    } else if d == 2 {
        out.append("2");
    } else if d == 3 {
        out.append("3");
    } else if d == 4 {
        out.append("4");
    } else if d == 5 {
        out.append("5");
    } else if d == 6 {
        out.append("6");
    } else if d == 7 {
        out.append("7");
    } else if d == 8 {
        out.append("8");
    } else {
        out.append("9");
    }
    assert(out@ =~= base.push(digit_char(d as int)));
}

/// Appends the numeral of `n`.
pub fn append_numeral(out: &mut String, n: u64)
    ensures
        final(out)@ == old(out)@ + numeral(n as nat),
    decreases n,
{
    let ghost base = out@;
    if n >= 10 {
        append_numeral(out, n / 10);
    }
    push_digit(out, (n % 10) as u8);
    assert(out@ =~= base + numeral(n as nat));
}

/// Appends the numeral of a signed number.
pub fn append_signed(out: &mut String, i: i64)
    ensures
        final(out)@ == old(out)@ + signed_numeral(i as int),
{
    let ghost base = out@;
    if i < 0 {
        proof {
            reveal_strlit("-");
        }
        out.append("-");
        let magnitude: u64 = (-(i as i128)) as u64;
        append_numeral(out, magnitude);
        assert(out@ =~= base + signed_numeral(i as int));
    } else {
        append_numeral(out, i as u64);
    }
}

/// Appends the last `width` digits of `n`.
pub fn append_digits(out: &mut String, n: u64, width: usize)
    ensures
        final(out)@ == old(out)@ + digits(n as nat, width as nat),
    decreases width,
{
    let ghost base = out@;
    if width > 0 {
        append_digits(out, n / 10, width - 1);
        push_digit(out, (n % 10) as u8);
    }
    assert(out@ =~= base + digits(n as nat, width as nat));
}

fn numeral_len(n: u64) -> (r: usize)
    ensures
        r == numeral(n as nat).len(),
        r <= 20,
{
    proof {
        reveal_with_fuel(pow10, 21);
        lemma_numeral_fits(n as nat, 20);
    }
    let mut rest: u64 = n;
    let mut len: usize = 1;
    while rest >= 10
        invariant
            len + numeral(rest as nat).len() - 1 == numeral(n as nat).len() <= 20,
        decreases rest,
    {
        rest = rest / 10;
        len = len + 1;
    }
    len
}

/// A number below a power of ten has no more digits than that.
pub proof fn lemma_numeral_fits(n: nat, width: nat)
    requires
        n < pow10(width),
        width >= 1,
    ensures
        1 <= numeral(n).len() <= width,
    decreases width,
{
    if width == 1 {
        reveal_with_fuel(pow10, 2);
    } else if n >= 10 {
        lemma_numeral_fits(n / 10, (width - 1) as nat);
    }
}

/// Appends the numeral of `i`, filled up with zeros to at least `width`
/// characters.
pub fn append_padded(out: &mut String, i: i64, width: usize)
    ensures
        final(out)@ == old(out)@ + padded(i as int, width as nat),
{
    let ghost base = out@;
    let negative: bool = i < 0;
    let magnitude: u64 = if negative {
        (-(i as i128)) as u64
    } else {
        i as u64
    };
    let sign: usize = if negative {
        1
    } else {
        0
    };
    let used: usize = sign + numeral_len(magnitude);
    if negative {
        proof {
            reveal_strlit("-");
        }
        out.append("-");
    }
    let ghost signed = out@;
    let mut k: usize = used;
    assert(out@ =~= signed + Seq::new(0, |j: int| '0'));
    while k < width
        invariant
            used <= k,
            k <= width || k == used,
            out@ == signed + Seq::new((k - used) as nat, |j: int| '0'),
        decreases width - k,
    {
        push_digit(out, 0);
        k = k + 1;
        assert(out@ =~= signed + Seq::new((k - used) as nat, |j: int| '0'));
    }
    append_numeral(out, magnitude);
    assert(out@ =~= base + padded(i as int, width as nat));
}

} // verus!
