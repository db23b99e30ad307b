//! Conversion of a raw string value to a 64-bit integer.
//!
//! The accepted form is the standard one: an optional ASCII `+` or `-`
//! sign followed by one or more ASCII decimal digits, scanned left to
//! right, failing on the first character that is not a digit or on the
//! first prefix whose value leaves the 64-bit range.

use vstd::prelude::*;

verus! {

/// Why a raw string failed to convert to an integer.
#[derive(Clone, Copy, PartialEq, Eq, Structural, Debug)]
pub enum IntParseError {
    /// The raw string was empty.
    Empty,
    /// A character other than an ASCII digit was found (a lone sign counts).
    InvalidDigit,
    /// The value exceeds the largest 64-bit integer.
    PosOverflow,
    /// The value is below the smallest 64-bit integer.
    NegOverflow,
}

/// The conversion failure message carried into the binding error.
pub open spec fn int_parse_message(e: IntParseError) -> Seq<char> {
    match e {
        IntParseError::Empty => "cannot parse integer from empty string"@,
        IntParseError::InvalidDigit => "invalid digit found in string"@,
        IntParseError::PosOverflow => "number too large to fit in target type"@,
        IntParseError::NegOverflow => "number too small to fit in target type"@,
    }
}

impl IntParseError {
    /// The human-readable message for this failure.
    pub fn message(&self) -> (r: String)
        ensures
            r@ == int_parse_message(*self),
    {
        match self {
            IntParseError::Empty => String::from_str("cannot parse integer from empty string"),
            IntParseError::InvalidDigit => String::from_str("invalid digit found in string"),
            IntParseError::PosOverflow => String::from_str(
                "number too large to fit in target type",
            ),
            IntParseError::NegOverflow => String::from_str(
                "number too small to fit in target type",
            ),
        }
    }
}

/// Whether `c` is an ASCII decimal digit.
pub open spec fn is_digit_char(c: char) -> bool {
    '0' as int <= c as int && c as int <= '9' as int
}

/// The numeric value of the digit `c`.
pub open spec fn digit_value(c: char) -> int {
    c as int - '0' as int
}

/// Whether every character of `s` is an ASCII decimal digit.
pub open spec fn all_digits(s: Seq<char>) -> bool {
    forall|i: int| 0 <= i < s.len() ==> is_digit_char(#[trigger] s[i])
}

/// The base-10 value of the digit string `s` on top of an already
/// accumulated value `acc`.
pub open spec fn digits_value_acc(s: Seq<char>, acc: int) -> int
    decreases s.len(),
{
    if s.len() == 0 {
        acc
    } else {
        digits_value_acc(s.drop_first(), acc * 10 + digit_value(s.first()))
    }
}

/// The base-10 value of the digit string `s`.
pub open spec fn digits_value(s: Seq<char>) -> int {
    digits_value_acc(s, 0)
}

/// The digits of `s` after an optional leading ASCII sign.
pub open spec fn unsigned_part(s: Seq<char>) -> Seq<char> {
    if s.len() > 0 && (s[0] == '-' || s[0] == '+') {
        s.drop_first()
    } else {
        s
    }
}

/// Whether `s` carries a leading minus sign.
pub open spec fn is_negative(s: Seq<char>) -> bool {
    s.len() > 0 && s[0] == '-'
}

/// One left-to-right scan over the digit string `ds`, accumulating onto
/// `acc` (non-positive accumulation when `neg`), failing on the first
/// non-digit character or the first step out of the 64-bit range.
pub open spec fn spec_scan(ds: Seq<char>, acc: i64, neg: bool) -> Result<i64, IntParseError>
    decreases ds.len(),
{
    if ds.len() == 0 {
        Ok(acc)
    } else if !is_digit_char(ds.first()) {
        Err(IntParseError::InvalidDigit)
    } else {
        let stepped = if neg {
            acc as int * 10 - digit_value(ds.first())
        } else {
            acc as int * 10 + digit_value(ds.first())
        };
        if stepped < i64::MIN as int || stepped > i64::MAX as int {
            Err(
                if neg {
                    IntParseError::NegOverflow
                } else {
                    IntParseError::PosOverflow
                },
            )
        } else {
            spec_scan(ds.drop_first(), stepped as i64, neg)
        }
    }
}

/// What converting `s` to a 64-bit integer yields.
pub open spec fn spec_parse_i64(s: Seq<char>) -> Result<i64, IntParseError> {
    if s.len() == 0 {
        Err(IntParseError::Empty)
    } else if unsigned_part(s).len() == 0 {
        Err(IntParseError::InvalidDigit)
    } else {
        spec_scan(unsigned_part(s), 0, is_negative(s))
    }
}

/// Parses every raw value in order; the earliest failure decides the
/// result.
pub open spec fn spec_parse_all(vals: Seq<Seq<char>>) -> Result<Seq<i64>, IntParseError>
    decreases vals.len(),
{
    if vals.len() == 0 {
        Ok(Seq::empty())
    } else {
        match spec_parse_all(vals.drop_last()) {
            Err(e) => Err(e),
            Ok(ns) => match spec_parse_i64(vals.last()) {
                Err(e) => Err(e),
                Ok(n) => Ok(ns.push(n)),
            },
        }
    }
}

/// The signed base-10 value denoted by `s`: the value of its digits,
/// negated when `s` carries a minus sign.
pub open spec fn signed_value(s: Seq<char>) -> int {
    if is_negative(s) {
        -digits_value(unsigned_part(s))
    } else {
        digits_value(unsigned_part(s))
    }
}

/// Accumulating digits can only grow a non-negative accumulator.
proof fn lemma_digits_value_acc_lower(ds: Seq<char>, acc: int)
    requires
        acc >= 0,
        all_digits(ds),
    ensures
        digits_value_acc(ds, acc) >= acc,
    decreases ds.len(),
{
    if ds.len() > 0 {
        assert(is_digit_char(ds[0]));
        assert(all_digits(ds.drop_first())) by {
            assert(forall|i: int|
                0 <= i < ds.drop_first().len() ==> #[trigger] ds.drop_first()[i] == ds[i + 1]);
        }
        lemma_digits_value_acc_lower(ds.drop_first(), acc * 10 + digit_value(ds.first()));
    }
}

/// On an all-digit string a non-negative scan succeeds exactly when the
/// accumulated value stays within range, and returns that value; and a
/// successful scan can only have seen digits.
proof fn lemma_scan_pos(ds: Seq<char>, acc: i64)
    requires
        acc >= 0,
    ensures
        all_digits(ds) && digits_value_acc(ds, acc as int) <= i64::MAX as int ==> (spec_scan(
            ds,
            acc,
            false,
        ) matches Ok(v) && v as int == digits_value_acc(ds, acc as int)),
        all_digits(ds) && digits_value_acc(ds, acc as int) > i64::MAX as int ==> spec_scan(
            ds,
            acc,
            false,
        ) == Err::<i64, IntParseError>(IntParseError::PosOverflow),
        spec_scan(ds, acc, false) is Ok ==> all_digits(ds),
    decreases ds.len(),
{
    if ds.len() > 0 {
        assert(forall|i: int|
            0 <= i < ds.drop_first().len() ==> #[trigger] ds.drop_first()[i] == ds[i + 1]);
        if is_digit_char(ds.first()) {
            let stepped = acc as int * 10 + digit_value(ds.first());
            if stepped <= i64::MAX as int {
                lemma_scan_pos(ds.drop_first(), stepped as i64);
                if spec_scan(ds.drop_first(), stepped as i64, false) is Ok {
                    assert forall|i: int| 0 <= i < ds.len() implies is_digit_char(ds[i]) by {
                        if i > 0 {
                            assert(ds[i] == ds.drop_first()[i - 1]);
                            assert(is_digit_char(ds.drop_first()[i - 1]));
                        }
                    }
                }
            } else {
                if all_digits(ds) {
                    assert(all_digits(ds.drop_first()));
                    lemma_digits_value_acc_lower(ds.drop_first(), stepped);
                }
            }
        }
    }
}

/// The negative-side counterpart of `lemma_scan_pos`: the scan tracks the
/// negated value of the digits consumed so far.
proof fn lemma_scan_neg(ds: Seq<char>, acc: i64)
    requires
        acc <= 0,
    ensures
        all_digits(ds) && -digits_value_acc(ds, -(acc as int)) >= i64::MIN as int ==> (spec_scan(
            ds,
            acc,
            true,
        ) matches Ok(v) && v as int == -digits_value_acc(ds, -(acc as int))),
        all_digits(ds) && -digits_value_acc(ds, -(acc as int)) < i64::MIN as int ==> spec_scan(
            ds,
            acc,
            true,
        ) == Err::<i64, IntParseError>(IntParseError::NegOverflow),
        spec_scan(ds, acc, true) is Ok ==> all_digits(ds),
    decreases ds.len(),
{
    if ds.len() > 0 {
        assert(forall|i: int|
            0 <= i < ds.drop_first().len() ==> #[trigger] ds.drop_first()[i] == ds[i + 1]);
        if is_digit_char(ds.first()) {
            let stepped = acc as int * 10 - digit_value(ds.first());
            if stepped >= i64::MIN as int {
                lemma_scan_neg(ds.drop_first(), stepped as i64);
                if spec_scan(ds.drop_first(), stepped as i64, true) is Ok {
                    assert forall|i: int| 0 <= i < ds.len() implies is_digit_char(ds[i]) by {
                        if i > 0 {
                            assert(ds[i] == ds.drop_first()[i - 1]);
                            assert(is_digit_char(ds.drop_first()[i - 1]));
                        }
                    }
                }
            } else {
                if all_digits(ds) {
                    assert(all_digits(ds.drop_first()));
                    lemma_digits_value_acc_lower(ds.drop_first(), -stepped);
                }
            }
        }
    }
}

/// The conversion accepts exactly the well-formed in-range strings: it
/// succeeds if and only if an optional sign is followed by at least one
/// digit, every following character is a digit, and the signed base-10
/// value fits in 64 bits — and then it returns exactly that value.
pub proof fn lemma_parse_i64_complete(s: Seq<char>)
    ensures
        spec_parse_i64(s) is Ok <==> (unsigned_part(s).len() > 0 && all_digits(unsigned_part(s))
            && i64::MIN as int <= signed_value(s) && signed_value(s) <= i64::MAX as int),
        spec_parse_i64(s) is Ok ==> (spec_parse_i64(s) matches Ok(v) && v as int == signed_value(
            s,
        )),
        s.len() == 0 ==> spec_parse_i64(s) == Err::<i64, IntParseError>(IntParseError::Empty),
{
    if s.len() > 0 && unsigned_part(s).len() > 0 {
        let ds = unsigned_part(s);
        if is_negative(s) {
            lemma_scan_neg(ds, 0);
        } else {
            lemma_scan_pos(ds, 0);
            if all_digits(ds) {
                lemma_digits_value_acc_lower(ds, 0);
            }
        }
    }
}

/// Converts one raw string to a 64-bit integer: an optional `+` or `-`
/// sign followed by one or more ASCII decimal digits, with range checking.
pub fn parse_i64(s: &str) -> (r: Result<i64, IntParseError>)
    ensures
        r == spec_parse_i64(s@),
{
    let n = s.unicode_len();
    if n == 0 {
        return Err(IntParseError::Empty);
    }
    let c0 = s.get_char(0);
    let neg = c0 == '-';
    let start: usize = if c0 == '-' || c0 == '+' {
        1
    } else {
        0
    };
    let ghost ds = unsigned_part(s@);
    proof {
        assert(ds =~= s@.skip(start as int));
    }
    if start == n {
        return Err(IntParseError::InvalidDigit);
    }
    let mut acc: i64 = 0;
    let mut i: usize = start;
    proof {
        assert(ds.skip(0) =~= ds);
    }
    while i < n
        invariant
            n == s@.len(),
            start <= i <= n,
            start == 1 <==> (s@[0] == '-' || s@[0] == '+'),
            neg == is_negative(s@),
            ds == unsigned_part(s@),
            ds =~= s@.skip(start as int),
            neg ==> acc <= 0,
            !neg ==> acc >= 0,
            spec_scan(ds, 0, neg) == spec_scan(ds.skip(i - start), acc, neg),
        decreases n - i,
    {
        let c = s.get_char(i);
        proof {
            assert(ds.skip(i - start).first() == ds[i - start]);
            assert(ds[i - start] == s@[i as int]);
        }
        let cv = c as u32;
        if cv < 48 || cv > 57 {
            proof {
                assert(!is_digit_char(ds.skip(i - start).first()));
            }
            return Err(IntParseError::InvalidDigit);
        }
        let d: i64 = (cv - 48) as i64;
        let stepped_opt: Option<i64> = match acc.checked_mul(10) {
            Some(m) => if neg {
                m.checked_sub(d)
            } else {
                m.checked_add(d)
            },
            None => None,
        };
        match stepped_opt {
            Some(stepped) => {
                proof {
                    assert(ds.skip(i - start).drop_first() =~= ds.skip(i + 1 - start));
                }
                acc = stepped;
                i = i + 1;
            },
            None => {
                proof {
                    let ghost tail = ds.skip(i - start);
                    let ghost stepped_int = if neg {
                        acc as int * 10 - digit_value(tail.first())
                    } else {
                        acc as int * 10 + digit_value(tail.first())
                    };
                    assert(stepped_int < i64::MIN as int || stepped_int > i64::MAX as int);
                }
                if neg {
                    return Err(IntParseError::NegOverflow);
                } else {
                    return Err(IntParseError::PosOverflow);
                }
            },
        }
    }
    proof {
        assert(ds.skip(i - start) =~= Seq::<char>::empty());
    }
    Ok(acc)
}

} // verus!
