//! Formatting and parsing of unsigned integers in decimal and hexadecimal,
//! over ASCII bytes.
//!
//! Index identifiers and stack file names are built from decimal and
//! lower-case hexadecimal digit runs; this module gives both directions an
//! exact specification and proves the round trips.

use vstd::prelude::*;

verus! {

/// Value of one ASCII digit byte; `0`..`9`, `a`..`f` and `A`..`F` are digits.
pub open spec fn digit_val(b: u8) -> nat {
    if 0x30 <= b <= 0x39 {
        (b - 0x30) as nat
    } else if 0x61 <= b <= 0x66 {
        (b - 0x61 + 10) as nat
    } else if 0x41 <= b <= 0x46 {
        (b - 0x41 + 10) as nat
    } else {
        16
    }
}

/// Whether `b` is a digit byte legal in the given base (10 or 16).
pub open spec fn is_digit(b: u8, base: nat) -> bool {
    digit_val(b) < base
}

/// The canonical (lower-case) digit byte for a value below 16.
pub open spec fn digit_byte(d: nat) -> u8
    recommends
        d < 16,
{
    if d < 10 {
        (0x30 + d) as u8
    } else {
        (0x61 + (d - 10)) as u8
    }
}

/// The canonical digit run of `n` in the given base: no leading zeros,
/// lower-case, and `0` for zero.
pub open spec fn digits_of(n: nat, base: nat) -> Seq<u8>
    recommends
        2 <= base <= 16,
    decreases n,
    when 2 <= base
    via digits_of_decreases
{
    if n < base {
        seq![digit_byte(n)]
    } else {
        digits_of(n / base, base).push(digit_byte(n % base))
    }
}

#[via_fn]
proof fn digits_of_decreases(n: nat, base: nat) {
    assert(n >= base && base >= 2 ==> n / base < n) by (nonlinear_arith);
}

/// Dividing by the base shrinks a positive number; used below for induction.
proof fn lemma_div_shrinks(n: nat, base: nat)
    requires
        2 <= base,
        base <= n,
    ensures
        n / base < n,
        n / base >= 1,
{
    assert(n / base < n && n / base >= 1) by (nonlinear_arith)
        requires 2 <= base <= n;
}

/// The number a digit run denotes, read left to right.
pub open spec fn val_of_digits(s: Seq<u8>, base: nat) -> nat
    decreases s.len(),
{
    if s.len() == 0 {
        0
    } else {
        val_of_digits(s.drop_last(), base) * base + digit_val(s.last())
    }
}

/// Whether every byte of `s` is a digit in the given base.
pub open spec fn all_digits(s: Seq<u8>, base: nat) -> bool {
    forall|i: int| 0 <= i < s.len() ==> is_digit(#[trigger] s[i], base)
}

/// What a whole digit run parses to: `Some` exactly on nonempty runs of
/// digits whose value fits in `u64`.
pub open spec fn parse_digits(s: Seq<u8>, base: nat) -> Option<u64> {
    if s.len() > 0 && all_digits(s, base) && val_of_digits(s, base) <= u64::MAX {
        Some(val_of_digits(s, base) as u64)
    } else {
        None
    }
}

/// The canonical digit run of `n`, zero-extended on the left to at least
/// `width` bytes.
pub open spec fn digits_pad(n: nat, base: nat, width: nat) -> Seq<u8> {
    let ds = digits_of(n, base);
    if ds.len() < width {
        Seq::new((width - ds.len()) as nat, |i: int| 0x30u8) + ds
    } else {
        ds
    }
}

/// Every byte of a canonical digit run is a canonical digit of its base.
pub proof fn lemma_digits_of_are_digits(n: nat, base: nat)
    requires
        2 <= base <= 16,
    ensures
        all_digits(digits_of(n, base), base),
        forall|i: int|
            0 <= i < digits_of(n, base).len() ==> {
                let b = #[trigger] digits_of(n, base)[i];
                (0x30 <= b <= 0x39 || 0x61 <= b <= 0x66) && digit_val(b) < base
            },
        digits_of(n, base).len() >= 1,
    decreases n,
{
    if n >= base {
        lemma_div_shrinks(n, base);
        lemma_digits_of_are_digits(n / base, base);
    }
}

/// Reading back the canonical digit run of `n` gives `n`.
pub proof fn lemma_digits_roundtrip(n: nat, base: nat)
    requires
        2 <= base <= 16,
    ensures
        val_of_digits(digits_of(n, base), base) == n,
    decreases n,
{
    if n < base {
        assert(digits_of(n, base) =~= seq![digit_byte(n)]);
        assert(digits_of(n, base).drop_last() =~= Seq::<u8>::empty());
        assert(digit_val(digit_byte(n)) == n);
        assert(val_of_digits(Seq::<u8>::empty(), base) == 0);
        assert(0nat * base == 0) by (nonlinear_arith);
    } else {
        lemma_div_shrinks(n as nat, base);
        lemma_digits_roundtrip(n / base, base);
        assert(digits_of(n, base).drop_last() =~= digits_of(n / base, base));
        assert(digits_of(n, base).last() == digit_byte(n % base));
        assert(n % base < base);
        assert(digit_val(digit_byte((n % base) as nat)) == n % base);
        assert(n / base * base + n % base == n) by (nonlinear_arith)
            requires base >= 2;
    }
}

/// Leading zeros do not change the value of a digit run.
pub proof fn lemma_leading_zeros(zeros: Seq<u8>, s: Seq<u8>, base: nat)
    requires
        forall|i: int| 0 <= i < zeros.len() ==> zeros[i] == 0x30u8,
    ensures
        val_of_digits(zeros + s, base) == val_of_digits(s, base),
    decreases s.len(),
{
    if s.len() == 0 {
        lemma_all_zeros_val(zeros, base);
        assert(zeros + s =~= zeros);
    } else {
        lemma_leading_zeros(zeros, s.drop_last(), base);
        assert((zeros + s).drop_last() =~= zeros + s.drop_last());
        assert((zeros + s).last() == s.last());
    }
}

proof fn lemma_all_zeros_val(zeros: Seq<u8>, base: nat)
    requires
        forall|i: int| 0 <= i < zeros.len() ==> zeros[i] == 0x30u8,
    ensures
        val_of_digits(zeros, base) == 0,
    decreases zeros.len(),
{
    if zeros.len() > 0 {
        lemma_all_zeros_val(zeros.drop_last(), base);
        assert(zeros.last() == zeros[zeros.len() - 1]);
        assert(digit_val(0x30u8) == 0);
        assert(0nat * base == 0) by (nonlinear_arith);
    }
}

/// Reading back a zero-padded canonical digit run of `n` gives `n`.
pub proof fn lemma_digits_pad_roundtrip(n: nat, base: nat, width: nat)
    requires
        2 <= base <= 16,
    ensures
        val_of_digits(digits_pad(n, base, width), base) == n,
        all_digits(digits_pad(n, base, width), base),
        digits_pad(n, base, width).len() >= width,
{
    lemma_digits_roundtrip(n, base);
    lemma_digits_of_are_digits(n, base);
    let ds = digits_of(n, base);
    if ds.len() < width {
        let zeros = Seq::new((width - ds.len()) as nat, |i: int| 0x30u8);
        lemma_leading_zeros(zeros, ds, base);
        assert(forall|i: int|
            0 <= i < (zeros + ds).len() ==> is_digit(#[trigger] (zeros + ds)[i], base));
    }
}

/// `base` to the `e`-th power.
pub open spec fn pow_nat(base: nat, e: nat) -> nat
    decreases e,
{
    if e == 0 {
        1
    } else {
        base * pow_nat(base, (e - 1) as nat)
    }
}

/// A number below `base^k` has at most `k` canonical digits.
pub proof fn lemma_digits_len_bound(n: nat, base: nat, k: nat)
    requires
        2 <= base <= 16,
        1 <= k,
        n < pow_nat(base, k),
    ensures
        digits_of(n, base).len() <= k,
    decreases k,
{
    if n < base {
    } else {
        lemma_div_shrinks(n, base);
        assert(pow_nat(base, k) == base * pow_nat(base, (k - 1) as nat));
        assert(n / base < pow_nat(base, (k - 1) as nat)) by (nonlinear_arith)
            requires
                2 <= base,
                n < base * pow_nat(base, (k - 1) as nat);
        if k == 1 {
            assert(pow_nat(base, 0) == 1);
        } else {
            lemma_digits_len_bound(n / base, base, (k - 1) as nat);
        }
    }
}

/// A digit run is worth at least as much as any of its prefixes.
pub proof fn lemma_val_prefix_le(s: Seq<u8>, i: int, base: nat)
    requires
        2 <= base,
        0 <= i <= s.len(),
    ensures
        val_of_digits(s.subrange(0, i), base) <= val_of_digits(s, base),
    decreases s.len() - i,
{
    if i < s.len() {
        lemma_val_prefix_le(s, i + 1, base);
        let p = s.subrange(0, i + 1);
        assert(p.drop_last() =~= s.subrange(0, i));
        assert(val_of_digits(s.subrange(0, i), base) * base
            <= val_of_digits(s.subrange(0, i), base) * base + digit_val(p.last()));
        assert(val_of_digits(s.subrange(0, i), base)
            <= val_of_digits(s.subrange(0, i), base) * base) by (nonlinear_arith)
            requires base >= 2;
    } else {
        assert(s.subrange(0, i) =~= s);
    }
}

/// Exec mirror of `digit_val`, restricted to the given base; `None` where the
/// byte is no digit of that base.
pub fn digit_of_byte(b: u8, base: u8) -> (r: Option<u8>)
    requires
        base == 10 || base == 16,
    ensures
        match r {
            Some(d) => is_digit(b, base as nat) && d as nat == digit_val(b),
            None => !is_digit(b, base as nat),
        },
{
    if 0x30 <= b && b <= 0x39 {
        Some(b - 0x30)
    } else if base == 16 && 0x61 <= b && b <= 0x66 {
        Some(b - 0x61 + 10)
    } else if base == 16 && 0x41 <= b && b <= 0x46 {
        Some(b - 0x41 + 10)
    } else {
        None
    }
}

/// Append the canonical digit run of `n` in the given base.
pub fn push_digits(n: u64, base: u64, out: &mut Vec<u8>)
    requires
        base == 10 || base == 16,
    ensures
        final(out)@ == old(out)@ + digits_of(n as nat, base as nat),
    decreases n,
{
    let d: u64 = n % base;
    let digit: u8 = if d < 10 {
        0x30 + (d as u8)
    } else {
        0x61 + ((d - 10) as u8)
    };
    if n < base {
        out.push(digit);
    } else {
        proof {
            lemma_div_shrinks(n as nat, base as nat);
        }
        push_digits(n / base, base, out);
        out.push(digit);
    }
}

/// Append the canonical digit run of `n`, zero-extended on the left to at
/// least `width` bytes.
pub fn push_digits_pad(n: u64, base: u64, width: usize, out: &mut Vec<u8>)
    requires
        base == 10 || base == 16,
        width <= 64,
    ensures
        final(out)@ == old(out)@ + digits_pad(n as nat, base as nat, width as nat),
{
    let mut tmp: Vec<u8> = Vec::new();
    push_digits(n, base, &mut tmp);
    let ghost mid = out@;
    if tmp.len() < width {
        let mut pad: usize = width - tmp.len();
        let ghost padn = pad as nat;
        while pad > 0
            invariant
                out@ == mid + Seq::new((padn - pad) as nat, |i: int| 0x30u8),
                pad <= padn,
            decreases pad,
        {
            out.push(0x30);
            pad = pad - 1;
            proof {
                assert(out@ =~= mid + Seq::new((padn - pad) as nat, |i: int| 0x30u8));
            }
        }
        out.append(&mut tmp);
        proof {
            assert(out@ =~= mid + digits_pad(n as nat, base as nat, width as nat));
        }
    } else {
        out.append(&mut tmp);
        proof {
            assert(out@ =~= mid + digits_pad(n as nat, base as nat, width as nat));
        }
    }
}

/// Parse a whole byte slice as one digit run in the given base.
pub fn parse_digit_run(s: &[u8], base: u8) -> (r: Option<u64>)
    requires
        base == 10 || base == 16,
    ensures
        r == parse_digits(s@, base as nat),
{
    if s.len() == 0 {
        return None;
    }
    let mut v: u64 = 0;
    let mut i: usize = 0;
    while i < s.len()
        invariant
            base == 10 || base == 16,
            0 <= i <= s@.len(),
            all_digits(s@.subrange(0, i as int), base as nat),
            v as nat == val_of_digits(s@.subrange(0, i as int), base as nat),
        decreases s@.len() - i,
    {
        let ghost pre = s@.subrange(0, i as int);
        match digit_of_byte(s[i], base) {
            Some(d) => {
                if v > (u64::MAX - (d as u64)) / (base as u64) {
                    // The value of the whole run can only be larger still.
                    proof {
                        let cur = s@.subrange(0, i as int + 1);
                        assert(cur.drop_last() =~= pre);
                        assert(val_of_digits(cur, base as nat) > u64::MAX) by (nonlinear_arith)
                            requires
                                val_of_digits(cur, base as nat) == val_of_digits(pre, base as nat)
                                    * (base as nat) + digit_val(s@[i as int]),
                                digit_val(s@[i as int]) == d as nat,
                                val_of_digits(pre, base as nat) == v as nat,
                                base == 10 || base == 16,
                                v as int > (u64::MAX as int - d as int) / (base as int);
                        lemma_val_prefix_le(s@, i as int + 1, base as nat);
                    }
                    return None;
                }
                proof {
                    let cur = s@.subrange(0, i as int + 1);
                    assert(cur.drop_last() =~= pre);
                    assert(v as nat * (base as nat) + d as nat <= u64::MAX) by (nonlinear_arith)
                        requires
                            base == 10 || base == 16,
                            v as int <= (u64::MAX as int - d as int) / (base as int),
                            d < 16;
                }
                v = v * (base as u64) + (d as u64);
                i = i + 1;
            },
            None => {
                return None;
            },
        }
    }
    proof {
        assert(s@.subrange(0, s@.len() as int) =~= s@);
    }
    Some(v)
}

} // verus!
