//! Rendering of integers as ASCII text.
use vstd::prelude::*;

verus! {

/// ASCII character of digit `d` (0..36): `0`-`9`, then letters in the chosen case.
pub open spec fn digit_char(d: int, upper: bool) -> u8 {
    if d < 10 {
        (48 + d) as u8
    } else if upper {
        (65 + d - 10) as u8
    } else {
        (97 + d - 10) as u8
    }
}

/// Digits of `v` in base `base`, most significant first, without leading zeros
/// (zero renders as a single `0`).
pub open spec fn radix_digits(v: nat, base: nat, upper: bool) -> Seq<u8>
    decreases v,
{
    if base < 2 || v < base {
        seq![digit_char(v as int, upper)]
    } else {
        proof {
            assert(v / base < v) by (nonlinear_arith)
                requires
                    base >= 2,
                    v >= base,
            ;
        }
        radix_digits(v / base, base, upper).push(digit_char((v % base) as int, upper))
    }
}

/// Decimal digits of `v`.
pub open spec fn dec_digits(v: nat) -> Seq<u8> {
    radix_digits(v, 10, false)
}

/// The low `width` hexadecimal digits of `v`, most significant first,
/// zero-padded.
pub open spec fn hex_fixed(v: nat, width: nat, upper: bool) -> Seq<u8>
    decreases width,
{
    if width == 0 {
        Seq::empty()
    } else {
        hex_fixed(v / 16, (width - 1) as nat, upper).push(digit_char((v % 16) as int, upper))
    }
}

fn digit_byte(d: u64, upper: bool) -> (r: u8)
    requires
        d < 36,
    ensures
        r == digit_char(d as int, upper),
{
    if d < 10 {
        48 + d as u8
    } else if upper {
        65 + (d - 10) as u8
    } else {
        97 + (d - 10) as u8
    }
}

/// `v` written in base `base` (2 to 16), most significant digit first.
pub fn radix_str(v: u64, base: u64, upper: bool) -> (r: Vec<u8>)
    requires
        2 <= base <= 16,
    ensures
        r@ == radix_digits(v as nat, base as nat, upper),
{
    let mut r: Vec<u8> = Vec::new();
    let mut n = v;
    loop
        invariant
            2 <= base <= 16,
            radix_digits(v as nat, base as nat, upper) == radix_digits(n as nat, base as nat, upper) + r@,
        decreases n,
    {
        if n < base {
            let d = digit_byte(n, upper);
            r.insert(0, d);
            proof {
                assert(radix_digits(v as nat, base as nat, upper) =~= r@);
            }
            return r;
        }
        let d = digit_byte(n % base, upper);
        let ghost old_r = r@;
        r.insert(0, d);
        proof {
            assert(radix_digits(n as nat, base as nat, upper) == radix_digits((n / base) as nat, base as nat, upper).push(d));
            assert(radix_digits((n / base) as nat, base as nat, upper).push(d) + old_r =~= radix_digits(
                (n / base) as nat,
                base as nat,
                upper,
            ) + r@);
        }
        n = n / base;
    }
}

/// Decimal text of `v`.
pub fn dec_str(v: u64) -> (r: Vec<u8>)
    ensures
        r@ == dec_digits(v as nat),
{
    radix_str(v, 10, false)
}

/// The low `width` hexadecimal digits of `v`, zero-padded.
pub fn hex_str_fixed(v: u64, width: usize, upper: bool) -> (r: Vec<u8>)
    requires
        width <= 16,
    ensures
        r@ == hex_fixed(v as nat, width as nat, upper),
{
    let mut r: Vec<u8> = Vec::new();
    let mut n = v;
    let mut i: usize = 0;
    while i < width
        invariant
            i <= width <= 16,
            hex_fixed(v as nat, width as nat, upper) == hex_fixed(n as nat, (width - i) as nat, upper) + r@,
        decreases width - i,
    {
        let d = digit_byte(n % 16, upper);
        let ghost old_r = r@;
        r.insert(0, d);
        proof {
            assert(hex_fixed(n as nat, (width - i) as nat, upper) == hex_fixed(
                (n / 16) as nat,
                (width - i - 1) as nat,
                upper,
            ).push(d));
            assert(hex_fixed((n / 16) as nat, (width - i - 1) as nat, upper).push(d) + old_r =~= hex_fixed(
                (n / 16) as nat,
                (width - i - 1) as nat,
                upper,
            ) + r@);
        }
        n = n / 16;
        i = i + 1;
    }
    proof {
        assert(hex_fixed(n as nat, 0, upper) + r@ =~= r@);
    }
    r
}

} // verus!
