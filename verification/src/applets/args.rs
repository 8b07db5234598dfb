//! Command-line option parsing shared by the file applets.
use vstd::prelude::*;
use vstd::string::StringSliceAdditionalSpecFns;

verus! {

/// Why an applet refused its arguments.
#[derive(Clone, Copy, PartialEq, Eq, Structural)]
pub enum ArgError {
    /// An option letter the applet does not know.
    InvalidOption,
    /// Fewer operands than the applet needs.
    MissingOperand,
}

/// The text shown for `e`.
pub open spec fn arg_error_text(e: ArgError) -> &'static str {
    match e {
        ArgError::InvalidOption => "invalid option",
        ArgError::MissingOperand => "missing file operand",
    }
}

/// The text shown for `e`.
pub fn arg_error_message(e: ArgError) -> (r: &'static str)
    ensures
        r == arg_error_text(e),
{
    match e {
        ArgError::InvalidOption => "invalid option",
        ArgError::MissingOperand => "missing file operand",
    }
}

/// `a` is an option argument: a `-` followed by at least one byte.
pub open spec fn is_option(a: Seq<u8>) -> bool {
    a.len() > 1 && a[0] == 45
}

/// Option argument `a` holds letter `c` after its dash.
pub open spec fn has_letter(a: Seq<u8>, c: u8) -> bool {
    exists|i: int| 1 <= i < a.len() && a[i] == c
}

/// Every letter of option argument `a` is in `allowed`.
pub open spec fn letters_ok(a: Seq<u8>, allowed: Seq<u8>) -> bool {
    forall|i: int| 1 <= i < a.len() ==> allowed.contains(#[trigger] a[i])
}

/// Some option among `args` holds a letter outside `allowed`.
pub open spec fn bad_option(args: Seq<&str>, allowed: Seq<u8>) -> bool {
    exists|k: int|
        0 <= k < args.len() && is_option(#[trigger] args[k].spec_bytes()) && !letters_ok(
            args[k].spec_bytes(),
            allowed,
        )
}

/// Some option among `args` holds letter `c`.
pub open spec fn flag_set(args: Seq<&str>, c: u8) -> bool {
    exists|k: int|
        0 <= k < args.len() && is_option(#[trigger] args[k].spec_bytes()) && has_letter(
            args[k].spec_bytes(),
            c,
        )
}

/// The non-option arguments of `args`, in order.
pub open spec fn operands(args: Seq<&str>) -> Seq<&str>
    decreases args.len(),
{
    if args.len() == 0 {
        Seq::empty()
    } else if is_option(args.last().spec_bytes()) {
        operands(args.drop_last())
    } else {
        operands(args.drop_last()).push(args.last())
    }
}

/// Whether `b` occurs in `s`.
pub fn contains_byte(s: &[u8], b: u8) -> (r: bool)
    ensures
        r == s@.contains(b),
{
    let mut i: usize = 0;
    while i < s.len()
        invariant
            i <= s@.len(),
            forall|t: int| 0 <= t < i ==> s@[t] != b,
        decreases s@.len() - i,
    {
        if s[i] == b {
            return true;
        }
        i = i + 1;
    }
    false
}

/// Whether option argument `a` holds letter `c`.
fn option_has(a: &[u8], c: u8) -> (r: bool)
    ensures
        r == has_letter(a@, c),
{
    let mut i: usize = 1;
    while i < a.len()
        invariant
            1 <= i,
            forall|t: int| 1 <= t < i && t < a@.len() ==> a@[t] != c,
        decreases a@.len() - i,
    {
        if a[i] == c {
            return true;
        }
        i = i + 1;
    }
    false
}

/// Whether every letter of option argument `a` is in `allowed`.
fn option_letters_ok(a: &[u8], allowed: &[u8]) -> (r: bool)
    ensures
        r == letters_ok(a@, allowed@),
{
    let mut i: usize = 1;
    while i < a.len()
        invariant
            1 <= i,
            forall|t: int| 1 <= t < i && t < a@.len() ==> allowed@.contains(#[trigger] a@[t]),
        decreases a@.len() - i,
    {
        if !contains_byte(allowed, a[i]) {
            return false;
        }
        i = i + 1;
    }
    true
}

/// Whether `a` is an option argument.
pub fn option_arg(a: &[u8]) -> (r: bool)
    ensures
        r == is_option(a@),
{
    a.len() > 1 && a[0] == 45
}

/// Whether some option among `args` holds a letter outside `allowed`.
pub fn option_error(args: &[&str], allowed: &[u8]) -> (r: bool)
    ensures
        r == bad_option(args@, allowed@),
{
    let mut k: usize = 0;
    while k < args.len()
        invariant
            k <= args@.len(),
            forall|t: int|
                0 <= t < k && is_option(#[trigger] args@[t].spec_bytes()) ==> letters_ok(
                    args@[t].spec_bytes(),
                    allowed@,
                ),
        decreases args@.len() - k,
    {
        let a = args[k].as_bytes();
        if option_arg(a) && !option_letters_ok(a, allowed) {
            assert(is_option(args@[k as int].spec_bytes()));
            return true;
        }
        k = k + 1;
    }
    false
}

/// Whether some option among `args` holds letter `c`.
pub fn flag_given(args: &[&str], c: u8) -> (r: bool)
    ensures
        r == flag_set(args@, c),
{
    let mut k: usize = 0;
    while k < args.len()
        invariant
            k <= args@.len(),
            forall|t: int|
                0 <= t < k && is_option(#[trigger] args@[t].spec_bytes()) ==> !has_letter(
                    args@[t].spec_bytes(),
                    c,
                ),
        decreases args@.len() - k,
    {
        let a = args[k].as_bytes();
        if option_arg(a) && option_has(a, c) {
            assert(is_option(args@[k as int].spec_bytes()));
            return true;
        }
        k = k + 1;
    }
    false
}

/// The non-option arguments of `args`, in order.
pub fn operand_list<'a>(args: &[&'a str]) -> (r: Vec<&'a str>)
    ensures
        r@ == operands(args@),
{
    let mut ops: Vec<&'a str> = Vec::new();
    let mut k: usize = 0;
    while k < args.len()
        invariant
            k <= args@.len(),
            ops@ == operands(args@.take(k as int)),
        decreases args@.len() - k,
    {
        assert(args@.take(k + 1).drop_last() =~= args@.take(k as int));
        assert(args@.take(k + 1).last() == args@[k as int]);
        let a = args[k];
        if !option_arg(a.as_bytes()) {
            ops.push(a);
        }
        k = k + 1;
    }
    assert(args@.take(args@.len() as int) =~= args@);
    ops
}

/// The decimal value of the digit string `s`.
pub open spec fn dec_value(s: Seq<u8>) -> nat
    decreases s.len(),
{
    if s.len() == 0 {
        0
    } else {
        dec_value(s.drop_last()) * 10 + (s.last() - 48) as nat
    }
}

/// Every byte of `s` is an ASCII digit.
pub open spec fn all_digits(s: Seq<u8>) -> bool {
    forall|i: int| 0 <= i < s.len() ==> 48 <= #[trigger] s[i] <= 57
}

/// The digits of a number argument: without one leading `+`.
pub open spec fn number_digits(s: Seq<u8>) -> Seq<u8> {
    if s.len() > 0 && s[0] == 43 {
        s.drop_first()
    } else {
        s
    }
}

/// The value of `s` read as an unsigned number: optional `+`, then one or
/// more digits, no more than `usize::MAX`.
pub open spec fn number_value(s: Seq<u8>) -> Option<nat> {
    let d = number_digits(s);
    if d.len() == 0 || !all_digits(d) || dec_value(d) > usize::MAX {
        None
    } else {
        Some(dec_value(d))
    }
}

proof fn lemma_dec_value_prefix(s: Seq<u8>, k: int)
    requires
        0 <= k <= s.len(),
        all_digits(s),
    ensures
        dec_value(s.take(k)) <= dec_value(s),
    decreases s.len() - k,
{
    if k < s.len() {
        lemma_dec_value_prefix(s, k + 1);
        assert(s.take(k + 1).drop_last() =~= s.take(k));
        assert(48 <= s[k] <= 57);
    } else {
        assert(s.take(k) =~= s);
    }
}

/// Reads `s` as an unsigned number, as `str::parse::<usize>` does.
pub fn parse_number(s: &[u8]) -> (r: Option<usize>)
    ensures
        r matches Some(v) ==> number_value(s@) == Some(v as nat),
        r is None ==> number_value(s@) is None,
{
    let start: usize = if s.len() > 0 && s[0] == 43 {
        1
    } else {
        0
    };
    let ghost d = number_digits(s@);
    assert(d =~= s@.subrange(start as int, s@.len() as int));
    if start >= s.len() {
        return None;
    }
    let mut v: usize = 0;
    let mut i: usize = start;
    while i < s.len()
        invariant
            start <= i <= s@.len(),
            d =~= s@.subrange(start as int, s@.len() as int),
            d == number_digits(s@),
            forall|t: int| 0 <= t < i - start ==> 48 <= #[trigger] d[t] <= 57,
            v == dec_value(d.take(i - start)),
        decreases s@.len() - i,
    {
        let b = s[i];
        if b < 48 || b > 57 {
            assert(d[i - start] == b);
            assert(!all_digits(d));
            return None;
        }
        let ghost k = i - start;
        assert(d.take(k + 1).drop_last() =~= d.take(k));
        assert(d.take(k + 1).last() == b);
        let digit = (b - 48) as usize;
        match v.checked_mul(10) {
            None => {
                proof {
                    assert(dec_value(d.take(k + 1)) > usize::MAX) by (nonlinear_arith)
                        requires
                            dec_value(d.take(k + 1)) == v * 10 + digit,
                            v * 10 > usize::MAX,
                    ;
                    if all_digits(d) {
                        lemma_dec_value_prefix(d, k + 1);
                    }
                }
                return None;
            },
            Some(m) => match m.checked_add(digit) {
                None => {
                    proof {
                        if all_digits(d) {
                            lemma_dec_value_prefix(d, k + 1);
                        }
                    }
                    return None;
                },
                Some(n) => {
                    v = n;
                },
            },
        }
        i = i + 1;
    }
    assert(d.take(i - start) =~= d);
    Some(v)
}

} // verus!
