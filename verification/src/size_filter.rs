//! Size filters and the expressions that denote them.

use vstd::prelude::*;
use crate::decimal::{digit_char, is_decimal, is_digit, saturated, scale_decimal, scaled_value};
use crate::text::{chars_of, sub_chars, trim, trimmed};

verus! {

/// A predicate over byte counts. A file whose size the filter matches is
/// left out of a scan.
#[derive(Clone, Copy, Debug, PartialEq, Eq, Structural)]
pub enum SizeFilter {
    /// Matches sizes strictly below the bound.
    Lt(u64),
    /// Matches sizes strictly above the bound.
    Gt(u64),
    /// Matches sizes between the two bounds, both included.
    Range(u64, u64),
}

/// Why a size-filter expression was rejected.
#[derive(Clone, Copy, Debug, PartialEq, Eq, Structural)]
pub enum SizeFilterError {
    /// An operand does not start with a digit or a decimal point.
    MissingNumber,
    /// The digits of an operand do not form a decimal number.
    BadNumber,
    /// The unit is none of B, K, KB, M, MB, G, GB.
    UnknownUnit,
    /// The expression is no range and starts with neither `<` nor `>`.
    ExpectedOperator,
}

impl SizeFilter {
    /// Whether the filter matches a size of `bytes`.
    pub open spec fn ignores(self, bytes: u64) -> bool {
        match self {
            SizeFilter::Lt(n) => bytes < n,
            SizeFilter::Gt(n) => bytes > n,
            SizeFilter::Range(lo, hi) => lo <= bytes <= hi,
        }
    }

    /// A range filter holds its bounds in order.
    pub open spec fn well_formed(self) -> bool {
        match self {
            SizeFilter::Range(lo, hi) => lo <= hi,
            _ => true,
        }
    }

    /// Whether a file of `bytes` bytes is left out.
    pub fn should_ignore(&self, bytes: u64) -> (r: bool)
        ensures
            r == self.ignores(bytes),
    {
        match *self {
            SizeFilter::Lt(n) => bytes < n,
            SizeFilter::Gt(n) => bytes > n,
            SizeFilter::Range(lo, hi) => bytes >= lo && bytes <= hi,
        }
    }
}

/// Whether `c` can stand in the number of an operand.
pub open spec fn is_number_char(c: char) -> bool {
    is_digit(c) || c == '.'
}

/// How many characters at the start of `s` can stand in a number.
pub open spec fn number_len(s: Seq<char>) -> nat
    decreases s.len(),
{
    if s.len() > 0 && is_number_char(s[0]) {
        1 + number_len(s.drop_first())
    } else {
        0
    }
}

/// The multiplier that the letter of a unit stands for: K, M and G are
/// binary multiples, in either case.
pub open spec fn prefix_multiplier(c: char) -> Option<nat> {
    if c == 'k' || c == 'K' {
        Some(1024nat)
    } else if c == 'm' || c == 'M' {
        Some(1048576nat)
    } else if c == 'g' || c == 'G' {
        Some(1073741824nat)
    } else {
        None
    }
}

/// The number of bytes in one of the unit `u`: nothing or B for bytes,
/// then K, M, G with or without a B behind. `None` for anything else.
pub open spec fn unit_multiplier(u: Seq<char>) -> Option<nat> {
    if u.len() == 0 {
        Some(1nat)
    } else if u.len() == 1 {
        if u[0] == 'b' || u[0] == 'B' {
            Some(1nat)
        } else {
            prefix_multiplier(u[0])
        }
    } else if u.len() == 2 && (u[1] == 'b' || u[1] == 'B') {
        prefix_multiplier(u[0])
    } else {
        None
    }
}

/// The byte count that the operand `s` denotes: a decimal number, then a
/// unit, with white space allowed around both. The product is rounded to
/// the nearest byte and held to the range of `u64`.
pub open spec fn size_of(s: Seq<char>) -> Result<u64, SizeFilterError> {
    let t = trimmed(s);
    let n = number_len(t) as int;
    let number = t.subrange(0, n);
    let unit = trimmed(t.subrange(n, t.len() as int));
    if n == 0 {
        Err(SizeFilterError::MissingNumber)
    } else if !is_decimal(number) {
        Err(SizeFilterError::BadNumber)
    } else {
        match unit_multiplier(unit) {
            None => Err(SizeFilterError::UnknownUnit),
            Some(mult) => Ok(saturated(scaled_value(number, mult))),
        }
    }
}

/// The place of the first `..` in `t`. Where `t` holds none, the result
/// is too close to the end of `t` for two characters to follow.
pub open spec fn separator_index(t: Seq<char>) -> nat
    decreases t.len(),
{
    if t.len() >= 2 && !(t[0] == '.' && t[1] == '.') {
        1 + separator_index(t.drop_first())
    } else {
        0
    }
}

/// Whether `t` holds a `..`.
pub open spec fn has_separator(t: Seq<char>) -> bool {
    separator_index(t) + 2 <= t.len()
}

/// The filter that the expression `s` denotes.
///
/// With a `..` in it, the expression is a range: the operands on both
/// sides of the first `..` are its bounds, put in order. Otherwise its
/// first character is the operator and the rest the operand. An operand
/// is judged before the operator is.
pub open spec fn filter_of(s: Seq<char>) -> Result<SizeFilter, SizeFilterError> {
    let t = trimmed(s);
    if has_separator(t) {
        let i = separator_index(t) as int;
        match size_of(t.subrange(0, i)) {
            Err(e) => Err(e),
            Ok(a) => match size_of(t.subrange(i + 2, t.len() as int)) {
                Err(e) => Err(e),
                Ok(b) => if a <= b {
                    Ok(SizeFilter::Range(a, b))
                } else {
                    Ok(SizeFilter::Range(b, a))
                },
            },
        }
    } else {
        let rest = if t.len() > 0 {
            t.drop_first()
        } else {
            t
        };
        match size_of(rest) {
            Err(e) => Err(e),
            Ok(n) => if t.len() > 0 && t[0] == '<' {
                Ok(SizeFilter::Lt(n))
            } else if t.len() > 0 && t[0] == '>' {
                Ok(SizeFilter::Gt(n))
            } else {
                Err(SizeFilterError::ExpectedOperator)
            },
        }
    }
}

fn number_prefix(v: &Vec<char>) -> (n: usize)
    ensures
        n == number_len(v@),
        n <= v.len(),
{
    let mut i: usize = 0;
    assert(v@.subrange(0, v.len() as int) =~= v@);
    while i < v.len() && (digit_char(v[i]) || v[i] == '.')
        invariant
            i <= v.len(),
            number_len(v@) == i + number_len(v@.subrange(i as int, v.len() as int)),
        decreases v.len() - i,
    {
        assert(v@.subrange(i as int, v.len() as int).drop_first() =~= v@.subrange(
            i as int + 1,
            v.len() as int,
        ));
        i += 1;
    }
    i
}

fn prefix_factor(c: char) -> (r: Option<u64>)
    ensures
        r matches Some(m) ==> prefix_multiplier(c) == Some(m as nat) && 1 <= m <= 0x4000_0000,
        r.is_none() ==> prefix_multiplier(c).is_none(),
{
    if c == 'k' || c == 'K' {
        Some(1024)
    } else if c == 'm' || c == 'M' {
        Some(1048576)
    } else if c == 'g' || c == 'G' {
        Some(1073741824)
    } else {
        None
    }
}

fn unit_factor(u: &Vec<char>) -> (r: Option<u64>)
    ensures
        r matches Some(m) ==> unit_multiplier(u@) == Some(m as nat) && 1 <= m <= 0x4000_0000,
        r.is_none() ==> unit_multiplier(u@).is_none(),
{
    if u.len() == 0 {
        Some(1)
    } else if u.len() == 1 {
        if u[0] == 'b' || u[0] == 'B' {
            Some(1)
        } else {
            prefix_factor(u[0])
        }
    } else if u.len() == 2 && (u[1] == 'b' || u[1] == 'B') {
        prefix_factor(u[0])
    } else {
        None
    }
}

/// Reads one operand, given as its characters.
pub fn size_from_chars(v: &Vec<char>) -> (r: Result<u64, SizeFilterError>)
    ensures
        r == size_of(v@),
{
    let t: Vec<char> = trim(v);
    let n: usize = number_prefix(&t);
    if n == 0 {
        return Err(SizeFilterError::MissingNumber);
    }
    let number: Vec<char> = sub_chars(&t, 0, n);
    let tail: Vec<char> = sub_chars(&t, n, t.len());
    let unit: Vec<char> = trim(&tail);
    match unit_factor(&unit) {
        Some(mult) => match scale_decimal(&number, mult) {
            Some(bytes) => Ok(bytes),
            None => Err(SizeFilterError::BadNumber),
        },
        None => {
            if scale_decimal(&number, 1).is_some() {
                Err(SizeFilterError::UnknownUnit)
            } else {
                Err(SizeFilterError::BadNumber)
            }
        },
    }
}

/// Reads one operand of a size-filter expression: `3MB`, `1.5 gb`, `800`.
pub fn parse_size_bytes(s: &str) -> (r: Result<u64, SizeFilterError>)
    ensures
        r == size_of(s@),
{
    let v: Vec<char> = chars_of(s);
    size_from_chars(&v)
}

fn find_separator(t: &Vec<char>) -> (i: usize)
    ensures
        i == separator_index(t@),
        i <= t.len(),
{
    let mut i: usize = 0;
    assert(t@.subrange(0, t.len() as int) =~= t@);
    while t.len() - i >= 2 && !(t[i] == '.' && t[i + 1] == '.')
        invariant
            i <= t.len(),
            separator_index(t@) == i + separator_index(t@.subrange(i as int, t.len() as int)),
        decreases t.len() - i,
    {
        assert(t@.subrange(i as int, t.len() as int).drop_first() =~= t@.subrange(
            i as int + 1,
            t.len() as int,
        ));
        i += 1;
    }
    i
}

/// Reads a size-filter expression: `<N[unit]`, `>N[unit]` or
/// `A[unit]..B[unit]`.
pub fn parse_size_filter(s: &str) -> (r: Result<SizeFilter, SizeFilterError>)
    ensures
        r == filter_of(s@),
        r matches Ok(f) ==> f.well_formed(),
{
    let v: Vec<char> = chars_of(s);
    let t: Vec<char> = trim(&v);
    let i: usize = find_separator(&t);
    if t.len() - i >= 2 {
        let left: Vec<char> = sub_chars(&t, 0, i);
        let right: Vec<char> = sub_chars(&t, i + 2, t.len());
        let a: u64 = match size_from_chars(&left) {
            Ok(a) => a,
            Err(e) => { return Err(e); },
        };
        let b: u64 = match size_from_chars(&right) {
            Ok(b) => b,
            Err(e) => { return Err(e); },
        };
        if a <= b {
            Ok(SizeFilter::Range(a, b))
        } else {
            Ok(SizeFilter::Range(b, a))
        }
    } else {
        let rest: Vec<char> = if t.len() > 0 {
            sub_chars(&t, 1, t.len())
        } else {
            Vec::new()
        };
        assert(t.len() > 0 ==> rest@ =~= t@.drop_first());
        assert(t.len() == 0 ==> rest@ =~= t@);
        let n: u64 = match size_from_chars(&rest) {
            Ok(n) => n,
            Err(e) => { return Err(e); },
        };
        if t.len() > 0 && t[0] == '<' {
            Ok(SizeFilter::Lt(n))
        } else if t.len() > 0 && t[0] == '>' {
            Ok(SizeFilter::Gt(n))
        } else {
            Err(SizeFilterError::ExpectedOperator)
        }
    }
}

} // verus!
