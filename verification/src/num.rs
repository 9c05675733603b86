//! Numbers as the library holds them: decimal text of integers, and
//! floating-point values kept as IEEE-754 bit patterns.

use vstd::prelude::*;

verus! {

/// `String::push` appends one `char`: the string's characters afterwards are
/// those before, followed by `ch` (as std documents it).
pub assume_specification[ std::string::String::push ](s: &mut std::string::String, ch: char)
    ensures
        final(s)@ == old(s)@.push(ch),
;

/// A 64-bit floating-point value, held as its IEEE-754 bit pattern together
/// with the text that Rust's `Display` gives for it (`1.5`, `-0`, `NaN`, ...).
/// The bit pattern is what goes on the wire and what equality looks at; the
/// text is what is shown.
#[derive(Clone, Debug)]
pub struct FloatLit<S = String> {
    pub bits: u64,
    pub text: S,
}

pub open spec fn float_view(f: FloatLit) -> FloatLit<Seq<char>> {
    FloatLit { bits: f.bits, text: f.text@ }
}

/// A copy of `f`.
pub fn copy_float(f: &FloatLit) -> (r: FloatLit)
    ensures
        float_view(r) == float_view(*f),
{
    FloatLit { bits: f.bits, text: f.text.clone() }
}

/// Two floats are equal as `f64` values are: `NaN` equals nothing, and the two
/// zeros are equal.
impl<S> PartialEq for FloatLit<S> {
    fn eq(&self, other: &FloatLit<S>) -> (r: bool) {
        f64_bits_eq(self.bits, other.bits)
    }
}

impl<S> vstd::std_specs::cmp::PartialEqSpecImpl for FloatLit<S> {
    open spec fn obeys_eq_spec() -> bool {
        true
    }

    open spec fn eq_spec(&self, other: &FloatLit<S>) -> bool {
        f64_eq(self.bits, other.bits)
    }
}

pub open spec fn f64_is_nan(bits: u64) -> bool {
    (bits / 0x10_0000_0000_0000) % 0x800 == 0x7ff && bits % 0x10_0000_0000_0000 != 0
}

pub open spec fn f64_is_zero(bits: u64) -> bool {
    bits % 0x8000_0000_0000_0000 == 0
}

/// IEEE-754 equality of two `f64` bit patterns: `NaN` equals nothing, and the
/// two zeros are equal.
pub open spec fn f64_eq(a: u64, b: u64) -> bool {
    !f64_is_nan(a) && !f64_is_nan(b) && (a == b || (f64_is_zero(a) && f64_is_zero(b)))
}

pub fn f64_bits_eq(a: u64, b: u64) -> (r: bool)
    ensures
        r == f64_eq(a, b),
{
    let nan_a = (a / 0x10_0000_0000_0000) % 0x800 == 0x7ff && a % 0x10_0000_0000_0000 != 0;
    let nan_b = (b / 0x10_0000_0000_0000) % 0x800 == 0x7ff && b % 0x10_0000_0000_0000 != 0;
    let zero_a = a % 0x8000_0000_0000_0000 == 0;
    let zero_b = b % 0x8000_0000_0000_0000 == 0;
    !nan_a && !nan_b && (a == b || (zero_a && zero_b))
}

pub fn f64_bits_is_nan(bits: u64) -> (r: bool)
    ensures
        r == f64_is_nan(bits),
{
    (bits / 0x10_0000_0000_0000) % 0x800 == 0x7ff && bits % 0x10_0000_0000_0000 != 0
}

/// The decimal digits of `n`, most significant first.
pub open spec fn nat_digits(n: nat) -> Seq<char>
    decreases n,
{
    if n < 10 {
        seq![digit_char((n % 10) as nat)]
    } else {
        nat_digits(n / 10).push(digit_char((n % 10) as nat))
    }
}

pub open spec fn digit_char(d: nat) -> char {
    ((d % 10) + 48) as char
}

/// The text `to_string` gives for an integer: an optional `-` and its digits.
pub open spec fn int_text(v: int) -> Seq<char> {
    if v < 0 {
        seq!['-'] + nat_digits((-v) as nat)
    } else {
        nat_digits(v as nat)
    }
}

fn digit_of(d: u64) -> (c: char)
    requires
        d < 10,
    ensures
        c == digit_char(d as nat),
{
    if d == 0 {
        '0'
    } else if d == 1 {
        '1'
    } else if d == 2 {
        '2'
    } else if d == 3 {
        '3'
    } else if d == 4 {
        '4'
    } else if d == 5 {
        '5'
    } else if d == 6 {
        '6'
    } else if d == 7 {
        '7'
    } else if d == 8 {
        '8'
    } else {
        '9'
    }
}

/// Appends the decimal digits of `n` to `out`.
pub fn push_u64_digits(out: &mut String, n: u64)
    ensures
        final(out)@ == old(out)@ + nat_digits(n as nat),
    decreases n,
{
    if n >= 10 {
        push_u64_digits(out, n / 10);
    }
    let c = digit_of(n % 10);
    out.push(c);
    assert(nat_digits(n as nat) == if n < 10 {
        seq![digit_char((n % 10) as nat)]
    } else {
        nat_digits((n / 10) as nat).push(digit_char((n % 10) as nat))
    });
    assert(final(out)@ =~= old(out)@ + nat_digits(n as nat)) by {
        if n >= 10 {
            assert(nat_digits(n as nat) =~= nat_digits((n / 10) as nat).push(digit_char((n % 10) as nat)));
        }
    }
}

/// Appends the decimal text of `v` to `out`.
pub fn push_i64_text(out: &mut String, v: i64)
    ensures
        final(out)@ == old(out)@ + int_text(v as int),
{
    if v < 0 {
        out.push('-');
        let m: u64 = if v == i64::MIN {
            9223372036854775808u64
        } else {
            (-v) as u64
        };
        push_u64_digits(out, m);
        assert(final(out)@ =~= old(out)@ + int_text(v as int));
    } else {
        push_u64_digits(out, v as u64);
    }
}

/// The decimal text of `v`, as `i64::to_string` gives it.
pub fn i64_to_string(v: i64) -> (s: String)
    ensures
        s@ == int_text(v as int),
{
    let mut s = String::new();
    push_i64_text(&mut s, v);
    assert(s@ =~= int_text(v as int));
    s
}

} // verus!
