//! Expected exit status of a command: the literal `success`, the literal
//! `failure`, or a specific signed exit code.

use vstd::prelude::*;

use crate::text::chars_of;

verus! {

/// What a `status:` sub-test expects of a command's exit.
#[derive(Clone, Copy, Debug, PartialEq, Eq, Structural)]
pub enum Status {
    /// The platform's notion of completing successfully.
    Success,
    /// The platform's notion of completing unsuccessfully.
    Failure,
    /// A specific signed exit code.
    Code(i64),
}

/// The word `success`.
pub open spec fn success_word() -> Seq<char> {
    seq!['s', 'u', 'c', 'c', 'e', 's', 's']
}

/// The word `failure`.
pub open spec fn failure_word() -> Seq<char> {
    seq!['f', 'a', 'i', 'l', 'u', 'r', 'e']
}

/// Whether `c` is a decimal digit.
pub open spec fn is_digit(c: char) -> bool {
    48 <= c as u32 <= 57
}

/// The value of one decimal digit.
pub open spec fn digit_val(c: char) -> int {
    c as u32 - 48
}

/// Whether `s` is one or more decimal digits.
pub open spec fn all_digits(s: Seq<char>) -> bool {
    s.len() > 0 && forall|i: int| 0 <= i < s.len() ==> is_digit(#[trigger] s[i])
}

/// The value of a digit string, most significant first.
pub open spec fn digits_val(s: Seq<char>) -> int
    decreases s.len(),
{
    if s.len() == 0 {
        0
    } else {
        digits_val(s.drop_last()) * 10 + digit_val(s.last())
    }
}

/// A signed exit code as text: an optional sign, then decimal digits, with a
/// value that fits a signed 64-bit integer. Anything else has no code.
pub open spec fn parsed_code(v: Seq<char>) -> Option<i64> {
    let neg = v.len() > 0 && v[0] == '-';
    let digits = if v.len() > 0 && (v[0] == '-' || v[0] == '+') {
        v.drop_first()
    } else {
        v
    };
    if !all_digits(digits) {
        None
    } else if neg {
        if digits_val(digits) <= 0x8000_0000_0000_0000 {
            Some((-digits_val(digits)) as i64)
        } else {
            None
        }
    } else {
        if digits_val(digits) <= 0x7FFF_FFFF_FFFF_FFFF {
            Some(digits_val(digits) as i64)
        } else {
            None
        }
    }
}

/// A `status:` value as text: `success`, `failure`, or a signed exit code.
/// Anything else is a specification error.
pub open spec fn parsed_status(v: Seq<char>) -> Option<Status> {
    if v == success_word() {
        Some(Status::Success)
    } else if v == failure_word() {
        Some(Status::Failure)
    } else {
        match parsed_code(v) {
            Some(c) => Some(Status::Code(c)),
            None => None,
        }
    }
}

/// Whether a reported exit meets the expectation: `success` and `failure`
/// check the platform's success flag, and a code checks the reported exit
/// code exactly.
pub open spec fn status_meets(expected: Status, success: bool, code: Option<i64>) -> bool {
    match expected {
        Status::Success => success,
        Status::Failure => !success,
        Status::Code(c) => code == Some(c),
    }
}

/// The value of a digit string never shrinks as digits are appended.
proof fn lemma_digits_val_bounds(s: Seq<char>, k: int)
    requires
        0 <= k <= s.len(),
        forall|i: int| 0 <= i < s.len() ==> is_digit(#[trigger] s[i]),
    ensures
        digits_val(s) >= digits_val(s.take(k)) >= 0,
    decreases s.len() - k,
{
    if k == s.len() {
        assert(s.take(k) =~= s);
        lemma_digits_val_nonneg(s);
    } else {
        lemma_digits_val_bounds(s, k + 1);
        assert(s.take(k + 1).drop_last() =~= s.take(k));
        assert(s.take(k + 1).last() == s[k]);
        lemma_digits_val_nonneg(s.take(k));
    }
}

proof fn lemma_digits_val_nonneg(s: Seq<char>)
    requires
        forall|i: int| 0 <= i < s.len() ==> is_digit(#[trigger] s[i]),
    ensures
        digits_val(s) >= 0,
    decreases s.len(),
{
    if s.len() > 0 {
        lemma_digits_val_nonneg(s.drop_last());
    }
}

/// Parses a signed exit code.
pub fn parse_code(v: &Vec<char>) -> (r: Option<i64>)
    ensures
        r == parsed_code(v@),
{
    let mut start: usize = 0;
    let mut neg = false;
    if v.len() > 0 && v[0] == '-' {
        neg = true;
        start = 1;
    } else if v.len() > 0 && v[0] == '+' {
        start = 1;
    }
    let ghost digits = if start == 1 {
        v@.drop_first()
    } else {
        v@
    };
    proof {
        assert(digits =~= v@.skip(start as int));
    }
    if start == v.len() {
        return None;
    }
    let limit_hi: u64 = if neg {
        922337203685477580
    } else {
        922337203685477580
    };
    let limit_lo: u64 = if neg {
        8
    } else {
        7
    };
    let ghost limit: int = if neg {
        0x8000_0000_0000_0000
    } else {
        0x7FFF_FFFF_FFFF_FFFF
    };
    let mut mag: u64 = 0;
    let mut i: usize = start;
    while i < v.len()
        invariant
            start <= i <= v@.len(),
            start < v@.len(),
            start == 0 || start == 1,
            digits == v@.skip(start as int),
            neg == (v@.len() > 0 && v@[0] == '-'),
            (start == 1) == (v@.len() > 0 && (v@[0] == '-' || v@[0] == '+')),
            digits == if v@.len() > 0 && (v@[0] == '-' || v@[0] == '+') {
                v@.drop_first()
            } else {
                v@
            },
            limit == limit_hi * 10 + limit_lo,
            limit_hi == 922337203685477580,
            limit_lo == if neg {
                8int
            } else {
                7int
            },
            forall|k: int| 0 <= k < i - start ==> is_digit(#[trigger] digits[k]),
            mag == digits_val(digits.take(i - start)),
            mag <= limit,
        decreases v@.len() - i,
    {
        let c = v[i];
        let d = c as u32;
        if d < 48 || d > 57 {
            proof {
                assert(digits[i - start] == v@[i as int]);
                assert(!is_digit(digits[i - start]));
                assert(!all_digits(digits));
            }
            return None;
        }
        let dd = (d - 48) as u64;
        proof {
            assert(digits.take(i - start + 1).drop_last() =~= digits.take(i - start));
            assert(digits.take(i - start + 1).last() == digits[i - start]);
            assert(digits[i - start] == v@[i as int]);
        }
        if mag > limit_hi || (mag == limit_hi && dd > limit_lo) {
            proof {
                assert(digits_val(digits.take(i - start + 1)) == mag * 10 + dd);
                assert(digits_val(digits.take(i - start + 1)) > limit);
                if all_digits(digits) {
                    lemma_digits_val_bounds(digits, i - start + 1);
                }
            }
            return None;
        }
        mag = mag * 10 + dd;
        i = i + 1;
    }
    proof {
        assert(digits.take(v@.len() - start) =~= digits);
        assert(all_digits(digits));
    }
    if neg {
        if mag == 9223372036854775808u64 {
            Some(i64::MIN)
        } else {
            Some(-(mag as i64))
        }
    } else {
        Some(mag as i64)
    }
}

/// Parses a `status:` value.
pub fn parse_status(v: &Vec<char>) -> (r: Option<Status>)
    ensures
        r == parsed_status(v@),
{
    let sw = chars_of("success");
    let fw = chars_of("failure");
    proof {
        reveal_strlit("success");
        reveal_strlit("failure");
        assert(sw@ =~= success_word());
        assert(fw@ =~= failure_word());
    }
    if crate::text::chars_eq(v, &sw) {
        return Some(Status::Success);
    }
    if crate::text::chars_eq(v, &fw) {
        return Some(Status::Failure);
    }
    match parse_code(v) {
        Some(c) => Some(Status::Code(c)),
        None => None,
    }
}

/// The character of one decimal digit value.
pub open spec fn digit_char(d: int) -> char {
    if d == 0 {
        '0'
    } else if d == 1 {
        '1'
    } else if d == 2 {
        '2'
    } else if d == 3 {
        '3'
    } else if d == 4 {
        '4'
    } else if d == 5 {
        '5'
    } else if d == 6 {
        '6'
    } else if d == 7 {
        '7'
    } else if d == 8 {
        '8'
    } else {
        '9'
    }
}

/// The decimal digits of `m`, most significant first.
pub open spec fn digits_of(m: nat) -> Seq<char>
    decreases m,
{
    if m < 10 {
        seq![digit_char(m as int)]
    } else {
        digits_of(m / 10).push(digit_char((m % 10) as int))
    }
}

/// A status value rendered back to text: `success`, `failure`, or the
/// decimal digits of the code with `-` ahead of a negative one.
pub open spec fn rendered_status(st: Status) -> Seq<char> {
    match st {
        Status::Success => success_word(),
        Status::Failure => failure_word(),
        Status::Code(c) => if c < 0 {
            seq!['-'] + digits_of((-(c as int)) as nat)
        } else {
            digits_of(c as nat)
        },
    }
}

proof fn lemma_digits_of_digits(m: nat)
    ensures
        digits_of(m).len() >= 1,
        forall|i: int| 0 <= i < digits_of(m).len() ==> is_digit(#[trigger] digits_of(m)[i]),
    decreases m,
{
    if m >= 10 {
        lemma_digits_of_digits(m / 10);
    }
}

proof fn lemma_digits_of_val(m: nat)
    ensures
        digits_val(digits_of(m)) == m,
    decreases m,
{
    if m < 10 {
        assert(digits_of(m).drop_last() =~= Seq::<char>::empty());
        assert(digits_of(m).last() == digit_char(m as int));
        assert(digit_val(digit_char(m as int)) == m);
        assert(digits_val(Seq::<char>::empty()) == 0);
        assert(digits_val(digits_of(m)) == digits_val(digits_of(m).drop_last()) * 10 + digit_val(
            digits_of(m).last(),
        ));
        assert(digits_val(digits_of(m)) == m);
    } else {
        lemma_digits_of_val(m / 10);
        assert(digits_of(m).drop_last() =~= digits_of(m / 10));
        assert(digits_of(m).last() == digit_char((m % 10) as int));
        assert(digit_val(digit_char((m % 10) as int)) == m % 10);
        vstd::arithmetic::div_mod::lemma_fundamental_div_mod(m as int, 10);
        assert(m == 10 * ((m as int) / 10) + (m as int) % 10);
        assert(digits_val(digits_of(m)) == digits_val(digits_of(m / 10)) * 10 + m % 10);
    }
}

/// Rendering a status and parsing the text back yields the same status:
/// the status half of the parse-render round trip.
pub proof fn lemma_status_round_trip(st: Status)
    ensures
        parsed_status(rendered_status(st)) == Some(st),
{
    let v = rendered_status(st);
    match st {
        Status::Success => {},
        Status::Failure => {
            assert(failure_word() != success_word());
        },
        Status::Code(c) => {
            let m: nat = if c < 0 {
                (-(c as int)) as nat
            } else {
                c as nat
            };
            lemma_digits_of_digits(m);
            lemma_digits_of_val(m);
            assert(is_digit(digits_of(m)[0]));
            if c < 0 {
                assert(v[0] == '-');
                assert(v != success_word());
                assert(v != failure_word());
                assert(v.drop_first() =~= digits_of(m));
                assert(all_digits(digits_of(m)));
                assert(m <= 0x8000_0000_0000_0000);
                assert(parsed_code(v) == Some((-(m as int)) as i64));
            } else {
                assert(v[0] == digits_of(m)[0]);
                assert(!is_digit('s') && !is_digit('f'));
                assert(v != success_word());
                assert(v != failure_word());
                assert(all_digits(v));
                assert(m <= 0x7FFF_FFFF_FFFF_FFFF);
                assert(parsed_code(v) == Some(m as i64));
            }
        },
    }
}

/// One decimal digit as a character.
fn digit_to_char(d: u64) -> (r: char)
    requires
        d < 10,
    ensures
        r == digit_char(d as int),
{
    if d == 0 {
        '0'
    } else if d == 1 {
        '1'
    } else if d == 2 {
        '2'
    } else if d == 3 {
        '3'
    } else if d == 4 {
        '4'
    } else if d == 5 {
        '5'
    } else if d == 6 {
        '6'
    } else if d == 7 {
        '7'
    } else if d == 8 {
        '8'
    } else {
        '9'
    }
}

/// The decimal digits of `m`.
fn render_digits(m: u64) -> (r: Vec<char>)
    ensures
        r@ == digits_of(m as nat),
    decreases m,
{
    if m < 10 {
        let mut r: Vec<char> = Vec::new();
        r.push(digit_to_char(m));
        assert(r@ =~= seq![digit_char(m as int)]);
        r
    } else {
        let mut r = render_digits(m / 10);
        r.push(digit_to_char(m % 10));
        r
    }
}

/// A status value rendered back to text.
pub fn render_status(st: &Status) -> (r: Vec<char>)
    ensures
        r@ == rendered_status(*st),
{
    match st {
        Status::Success => {
            let w = chars_of("success");
            proof {
                reveal_strlit("success");
                assert(w@ =~= success_word());
            }
            w
        },
        Status::Failure => {
            let w = chars_of("failure");
            proof {
                reveal_strlit("failure");
                assert(w@ =~= failure_word());
            }
            w
        },
        Status::Code(c) => {
            if *c < 0 {
                let mag: u64 = if *c == i64::MIN {
                    9223372036854775808u64
                } else {
                    (-*c) as u64
                };
                let ds = render_digits(mag);
                let mut r: Vec<char> = Vec::new();
                r.push('-');
                let mut i: usize = 0;
                while i < ds.len()
                    invariant
                        i <= ds@.len(),
                        r@ =~= seq!['-'] + ds@.take(i as int),
                    decreases ds@.len() - i,
                {
                    r.push(ds[i]);
                    proof {
                        assert(r@ =~= seq!['-'] + ds@.take(i + 1));
                    }
                    i = i + 1;
                }
                proof {
                    assert(ds@.take(ds@.len() as int) =~= ds@);
                }
                r
            } else {
                render_digits(*c as u64)
            }
        },
    }
}

/// Whether a reported exit meets the expectation.
pub fn check_status(expected: &Status, success: bool, code: Option<i64>) -> (r: bool)
    ensures
        r == status_meets(*expected, success, code),
{
    match expected {
        Status::Success => success,
        Status::Failure => !success,
        Status::Code(c) => match code {
            Some(a) => a == *c,
            None => false,
        },
    }
}

} // verus!
