//! Decimal digits on bytes: reading an unsigned number, writing one.

use vstd::prelude::*;

verus! {

pub open spec fn is_digit(b: u8) -> bool {
    48 <= b <= 57
}

pub open spec fn all_digits(s: Seq<u8>) -> bool {
    forall|i: int| 0 <= i < s.len() ==> #[trigger] is_digit(s[i])
}

/// The number that a run of digits spells, most significant first.
pub open spec fn digits_value(s: Seq<u8>) -> nat
    decreases s.len(),
{
    if s.len() == 0 {
        0
    } else {
        digits_value(s.drop_last()) * 10 + (s.last() - 48) as nat
    }
}

/// The `u64` that a decimal text denotes: one or more digits, no sign, in range.
pub open spec fn decimal_u64(s: Seq<u8>) -> Option<u64> {
    if s.len() > 0 && all_digits(s) && digits_value(s) <= u64::MAX {
        Some(digits_value(s) as u64)
    } else {
        None
    }
}

/// The shortest decimal text of a number.
pub open spec fn decimal(n: nat) -> Seq<u8>
    decreases n,
{
    if n < 10 {
        seq![(48 + n) as u8]
    } else {
        decimal(n / 10).push((48 + n % 10) as u8)
    }
}

pub open spec fn pow10(k: nat) -> nat
    decreases k,
{
    if k == 0 {
        1
    } else {
        10 * pow10((k - 1) as nat)
    }
}

pub proof fn lemma_digits_value_grows(s: Seq<u8>, b: u8)
    requires
        is_digit(b),
    ensures
        digits_value(s.push(b)) == digits_value(s) * 10 + (b - 48),
        digits_value(s.push(b)) >= digits_value(s),
{
    assert(s.push(b).drop_last() =~= s);
}

/// Reading back the decimal text of a number gives the number.
pub proof fn lemma_decimal_reads_back(n: nat)
    ensures
        decimal(n).len() > 0,
        all_digits(decimal(n)),
        digits_value(decimal(n)) == n,
    decreases n,
{
    if n < 10 {
        let s = decimal(n);
        assert(s.drop_last() =~= Seq::<u8>::empty());
        assert(digits_value(s.drop_last()) == 0);
        assert(s.last() == (48 + n) as u8);
    } else {
        lemma_decimal_reads_back(n / 10);
        let p = decimal(n / 10);
        lemma_digits_value_grows(p, (48 + n % 10) as u8);
        assert(((48 + n % 10) as u8) - 48 == n % 10);
        assert(n == (n / 10) * 10 + n % 10);
        assert(decimal(n) == p.push((48 + n % 10) as u8));
        assert forall|i: int| 0 <= i < decimal(n).len() implies #[trigger] is_digit(decimal(n)[i]) by {
            if i < p.len() {
                assert(is_digit(p[i]));
            }
        }
    }
}

pub proof fn lemma_decimal_len(n: nat, k: nat)
    requires
        k >= 1,
        n < pow10(k),
    ensures
        decimal(n).len() <= k,
    decreases k,
{
    if n >= 10 {
        assert(k >= 2) by {
            if k == 1 {
                assert(pow10(1) == 10 * pow10(0));
            }
        }
        assert(pow10(k) == 10 * pow10((k - 1) as nat));
        assert(n / 10 < pow10((k - 1) as nat));
        lemma_decimal_len(n / 10, (k - 1) as nat);
    }
}

pub proof fn lemma_u64_decimal_len(n: u64)
    ensures
        decimal(n as nat).len() <= 20,
{
    reveal_with_fuel(pow10, 21);
    assert(pow10(20) == 100000000000000000000nat);
    lemma_decimal_len(n as nat, 20);
}

/// Reads the decimal number in `buf[lo..hi]`.
pub fn read_u64(buf: &[u8], lo: usize, hi: usize) -> (r: Option<u64>)
    requires
        lo <= hi <= buf@.len(),
    ensures
        r == decimal_u64(buf@.subrange(lo as int, hi as int)),
{
    if lo == hi {
        return None;
    }
    let mut acc: u64 = 0;
    let mut over = false;
    let mut i = lo;
    while i < hi
        invariant
            lo <= i <= hi <= buf@.len(),
            all_digits(buf@.subrange(lo as int, i as int)),
            !over ==> acc as nat == digits_value(buf@.subrange(lo as int, i as int)),
            over ==> digits_value(buf@.subrange(lo as int, i as int)) > u64::MAX,
        decreases hi - i,
    {
        let b = buf[i];
        let ghost prefix = buf@.subrange(lo as int, i as int);
        assert(buf@.subrange(lo as int, i + 1) =~= prefix.push(b));
        if !(48 <= b && b <= 57) {
            assert(!is_digit(buf@.subrange(lo as int, hi as int)[i - lo]));
            return None;
        }
        proof {
            lemma_digits_value_grows(prefix, b);
        }
        if !over {
            let d = (b - 48) as u64;
            if acc > 1844674407370955161 || (acc == 1844674407370955161 && d > 5) {
                over = true;
            } else {
                acc = acc * 10 + d;
            }
        }
        i = i + 1;
    }
    assert(buf@.subrange(lo as int, hi as int) =~= buf@.subrange(lo as int, i as int));
    if over {
        None
    } else {
        Some(acc)
    }
}

/// Whether `buf[lo..hi]` is made of digits only.
pub fn digits_only(buf: &[u8], lo: usize, hi: usize) -> (r: bool)
    requires
        lo <= hi <= buf@.len(),
    ensures
        r == all_digits(buf@.subrange(lo as int, hi as int)),
{
    let mut i = lo;
    while i < hi
        invariant
            lo <= i <= hi <= buf@.len(),
            all_digits(buf@.subrange(lo as int, i as int)),
        decreases hi - i,
    {
        let b = buf[i];
        if !(48 <= b && b <= 57) {
            assert(!is_digit(buf@.subrange(lo as int, hi as int)[i - lo]));
            return false;
        }
        assert(buf@.subrange(lo as int, i + 1) =~= buf@.subrange(lo as int, i as int).push(b));
        i = i + 1;
    }
    assert(buf@.subrange(lo as int, hi as int) =~= buf@.subrange(lo as int, i as int));
    true
}

/// Appends the decimal text of `n`.
pub fn write_u64(out: &mut Vec<u8>, n: u64)
    ensures
        final(out)@ == old(out)@ + decimal(n as nat),
    decreases n,
{
    if n >= 10 {
        write_u64(out, n / 10);
    }
    out.push(48 + (n % 10) as u8);
    proof {
        if n >= 10 {
            assert(decimal(n as nat) == decimal((n / 10) as nat).push((48 + n % 10) as u8));
        }
    }
}

} // verus!
