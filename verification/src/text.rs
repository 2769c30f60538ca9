//! Small text utilities shared by the front end: character classification,
//! string comparison, and decimal rendering of integers for diagnostics.

use vstd::prelude::*;
use vstd::string::StrSliceExecFns;
use vstd::string::StringExecFns;

verus! {

/// Whether a character counts as whitespace for the lexer; the Unicode
/// white-space property, named here so contracts can speak of it.
pub uninterp spec fn is_space(c: char) -> bool;

/// Relies on char::is_whitespace: true exactly for characters with the
/// Unicode white-space property, a function of the character alone.
pub assume_specification[ char::is_whitespace ](c: char) -> (r: bool)
    ensures
        r == is_space(c),
;

/// The sequence of characters that a character uppercases to, as Unicode
/// defines it; named here so contracts can speak of it.
pub uninterp spec fn upper_of(c: char) -> Seq<char>;

/// Relies on char::to_uppercase: the Unicode uppercase mapping of a single
/// character, a function of the character alone.
#[verifier::external_body]
fn uppercase_char(c: char) -> (r: String)
    ensures
        r@ == upper_of(c),
{
    c.to_uppercase().to_string()
}

/// Relies on String::push: appends the given character to the end of the
/// string.
pub assume_specification[ String::push ](s: &mut String, c: char)
    ensures
        final(s)@ == old(s)@.push(c),
;

/// Equality of two string slices, decided character by character.
pub fn str_eq(a: &str, b: &str) -> (r: bool)
    ensures
        r == (a@ == b@),
{
    let an = a.unicode_len();
    let bn = b.unicode_len();
    if an != bn {
        return false;
    }
    let mut i: usize = 0;
    while i < an
        invariant
            0 <= i <= an,
            an == a@.len(),
            an == b@.len(),
            forall|j: int| 0 <= j < i ==> a@[j] == b@[j],
        decreases an - i,
    {
        if a.get_char(i) != b.get_char(i) {
            return false;
        }
        i = i + 1;
    }
    proof {
        assert(a@ =~= b@);
    }
    true
}

/// Lexicographic order on character sequences, by code point; a strictly
/// shorter prefix comes first.
pub open spec fn lex_lt(a: Seq<char>, b: Seq<char>) -> bool
    decreases a.len(),
{
    if b.len() == 0 {
        false
    } else if a.len() == 0 {
        true
    } else if a[0] != b[0] {
        (a[0] as u32) < (b[0] as u32)
    } else {
        lex_lt(a.drop_first(), b.drop_first())
    }
}

/// Strict lexicographic comparison of two strings, matching `lex_lt` on
/// their character sequences.
pub fn str_lt(a: &str, b: &str) -> (r: bool)
    ensures
        r == lex_lt(a@, b@),
{
    let an = a.unicode_len();
    let bn = b.unicode_len();
    let mut i: usize = 0;
    proof {
        assert(a@.skip(0) =~= a@);
        assert(b@.skip(0) =~= b@);
    }
    loop
        invariant
            0 <= i,
            i <= an,
            i <= bn,
            an == a@.len(),
            bn == b@.len(),
            lex_lt(a@, b@) == lex_lt(a@.skip(i as int), b@.skip(i as int)),
        decreases an - i,
    {
        if i >= bn {
            proof {
                assert(b@.skip(i as int).len() == 0);
            }
            return false;
        }
        if i >= an {
            proof {
                assert(a@.skip(i as int).len() == 0);
                assert(b@.skip(i as int).len() > 0);
            }
            return true;
        }
        let ac = a.get_char(i);
        let bc = b.get_char(i);
        proof {
            assert(a@.skip(i as int)[0] == a@[i as int]);
            assert(b@.skip(i as int)[0] == b@[i as int]);
        }
        if ac != bc {
            return (ac as u32) < (bc as u32);
        }
        proof {
            assert(a@.skip(i as int).drop_first() =~= a@.skip(i + 1));
            assert(b@.skip(i as int).drop_first() =~= b@.skip(i + 1));
        }
        i = i + 1;
    }
}

/// The decimal digit character for a value between 0 and 9.
pub open spec fn digit_char(d: int) -> char {
    if d == 0 {
        '0'
    } else if d == 1 {
        '1'
    } else if d == 2 {
        '2'
    } else if d == 3 {
        '3'
    } else if d == 4 {
        '4'
    } else if d == 5 {
        '5'
    } else if d == 6 {
        '6'
    } else if d == 7 {
        '7'
    } else if d == 8 {
        '8'
    } else {
        '9'
    }
}

/// The decimal rendering of a non-negative integer, most significant digit
/// first, with no leading zeros except for zero itself.
pub open spec fn spec_nat_digits(n: nat) -> Seq<char>
    decreases n,
{
    if n < 10 {
        seq![digit_char(n as int)]
    } else {
        spec_nat_digits(n / 10).push(digit_char((n % 10) as int))
    }
}

/// The decimal rendering of a signed integer: a minus sign for negative
/// values, then the digits of the magnitude.
pub open spec fn spec_int_digits(v: int) -> Seq<char> {
    if v < 0 {
        seq!['-'] + spec_nat_digits((-v) as nat)
    } else {
        spec_nat_digits(v as nat)
    }
}

fn exec_digit_char(d: u64) -> (c: char)
    requires
        d < 10,
    ensures
        c == digit_char(d as int),
{
    if d == 0 {
        '0'
    } else if d == 1 {
        '1'
    } else if d == 2 {
        '2'
    } else if d == 3 {
        '3'
    } else if d == 4 {
        '4'
    } else if d == 5 {
        '5'
    } else if d == 6 {
        '6'
    } else if d == 7 {
        '7'
    } else if d == 8 {
        '8'
    } else {
        '9'
    }
}

/// Renders a non-negative 64-bit integer in decimal.
pub fn u64_to_string(n: u64) -> (r: String)
    ensures
        r@ == spec_nat_digits(n as nat),
{
    if n == 0 {
        let mut out = String::new();
        out.push('0');
        proof {
            assert(spec_nat_digits(0) =~= seq!['0']);
            assert(out@ =~= seq!['0']);
        }
        return out;
    }
    let mut rev: Vec<char> = Vec::new();
    let mut m: u64 = n;
    proof {
        assert(spec_nat_digits(n as nat) + rev@.reverse() =~= spec_nat_digits(n as nat));
    }
    while m > 0
        invariant
            spec_nat_digits(n as nat) == if m > 0 {
                spec_nat_digits(m as nat) + rev@.reverse()
            } else {
                rev@.reverse()
            },
        decreases m,
    {
        let d = m % 10;
        rev.push(exec_digit_char(d));
        proof {
            assert(rev@.reverse() =~= seq![digit_char(d as int)] + rev@.drop_last().reverse());
            if m >= 10 {
                assert(spec_nat_digits(m as nat) == spec_nat_digits((m / 10) as nat).push(
                    digit_char((m % 10) as int),
                ));
                assert(spec_nat_digits(m as nat) + rev@.drop_last().reverse() =~= spec_nat_digits(
                    (m / 10) as nat,
                ) + rev@.reverse());
            } else {
                assert(spec_nat_digits(m as nat) =~= seq![digit_char(m as int)]);
                assert(spec_nat_digits(m as nat) + rev@.drop_last().reverse() =~= rev@.reverse());
            }
        }
        m = m / 10;
    }
    let mut out = String::new();
    let k = rev.len();
    let mut j: usize = 0;
    while j < k
        invariant
            0 <= j <= k,
            k == rev@.len(),
            out@ =~= rev@.reverse().take(j as int),
        decreases k - j,
    {
        let c = rev[k - 1 - j];
        out.push(c);
        proof {
            assert(rev@.reverse()[j as int] == rev@[k - 1 - j]);
            assert(out@ =~= rev@.reverse().take(j + 1));
        }
        j = j + 1;
    }
    proof {
        assert(out@ =~= rev@.reverse());
    }
    out
}

/// Renders a 32-bit signed integer in decimal, with a leading minus sign
/// when it is negative.
pub fn i32_to_string(v: i32) -> (r: String)
    ensures
        r@ == spec_int_digits(v as int),
{
    if v >= 0 {
        u64_to_string(v as u64)
    } else {
        let mag: u64 = (-(v as i64)) as u64;
        let digits = u64_to_string(mag);
        let mut out = String::new();
        out.push('-');
        out.append(digits.as_str());
        proof {
            assert(out@ =~= seq!['-'] + spec_nat_digits(mag as nat));
        }
        out
    }
}

/// Renders a machine-sized index in decimal.
pub fn usize_to_string(n: usize) -> (r: String)
    ensures
        r@ == spec_nat_digits(n as nat),
{
    u64_to_string(n as u64)
}

/// Concatenates three string slices.
pub fn concat3(a: &str, b: &str, c: &str) -> (r: String)
    ensures
        r@ == a@ + b@ + c@,
{
    let mut out = String::from_str(a);
    out.append(b);
    out.append(c);
    proof {
        assert(out@ =~= a@ + b@ + c@);
    }
    out
}

/// Concatenates five string slices.
pub fn concat5(a: &str, b: &str, c: &str, d: &str, e: &str) -> (r: String)
    ensures
        r@ == a@ + b@ + c@ + d@ + e@,
{
    let mut out = String::from_str(a);
    out.append(b);
    out.append(c);
    out.append(d);
    out.append(e);
    proof {
        assert(out@ =~= a@ + b@ + c@ + d@ + e@);
    }
    out
}

/// What `capitalize` returns: the uppercase expansion of the first
/// character, then the rest of the string unchanged.
pub open spec fn spec_capitalize(s: Seq<char>) -> Seq<char> {
    if s.len() == 0 {
        Seq::<char>::empty()
    } else {
        upper_of(s[0]) + s.drop_first()
    }
}

/// Uppercases the first character of a string, leaving the rest as is.
pub fn capitalize(s: &str) -> (r: String)
    ensures
        r@ == spec_capitalize(s@),
{
    let n = s.unicode_len();
    if n == 0 {
        String::new()
    } else {
        let first = s.get_char(0);
        let mut out = uppercase_char(first);
        let rest = s.substring_char(1, n);
        out.append(rest);
        proof {
            assert(rest@ =~= s@.drop_first());
        }
        out
    }
}

} // verus!
