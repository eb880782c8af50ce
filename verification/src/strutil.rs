//! Small verified building blocks for working with strings: appending
//! characters, lexicographic comparison, and decimal formatting and parsing
//! of 64-bit integers.

use vstd::prelude::*;
use vstd::string::*;

verus! {

/// Relies on `String::push` from std: it appends the given character to the
/// end of the string.
pub assume_specification[ String::push ](s: &mut String, c: char)
    ensures
        final(s)@ == old(s)@.push(c),
;

/// The decimal digit character for a value between 0 and 9.
pub open spec fn digit_char(d: int) -> char {
    if d == 0 {
        '0'
    } else if d == 1 {
        '1'
    } else if d == 2 {
        '2'
    } else if d == 3 {
        '3'
    } else if d == 4 {
        '4'
    } else if d == 5 {
        '5'
    } else if d == 6 {
        '6'
    } else if d == 7 {
        '7'
    } else if d == 8 {
        '8'
    } else {
        '9'
    }
}

/// The decimal digit sequence of a non-negative integer, most significant
/// digit first, with no leading zeros (except for the number 0 itself).
pub open spec fn dec_digits(n: int) -> Seq<char>
    decreases n,
{
    if n < 10 {
        seq![digit_char(n)]
    } else {
        dec_digits(n / 10).push(digit_char(n % 10))
    }
}

/// The decimal rendering of a signed 64-bit value: a minus sign followed by
/// the digits of its magnitude when negative, the bare digits otherwise.
pub open spec fn i64_dec(n: int) -> Seq<char> {
    if n < 0 {
        seq!['-'] + dec_digits(-n)
    } else {
        dec_digits(n)
    }
}

fn digit_to_char(d: u64) -> (c: char)
    requires
        d < 10,
    ensures
        c == digit_char(d as int),
{
    if d == 0 {
        '0'
    } else if d == 1 {
        '1'
    } else if d == 2 {
        '2'
    } else if d == 3 {
        '3'
    } else if d == 4 {
        '4'
    } else if d == 5 {
        '5'
    } else if d == 6 {
        '6'
    } else if d == 7 {
        '7'
    } else if d == 8 {
        '8'
    } else {
        '9'
    }
}

/// Append the decimal digits of `n` to `out`.
fn push_dec_u64(out: &mut String, n: u64)
    ensures
        final(out)@ == old(out)@ + dec_digits(n as int),
    decreases n,
{
    if n >= 10 {
        push_dec_u64(out, n / 10);
        out.push(digit_to_char(n % 10));
    } else {
        out.push(digit_to_char(n));
        proof {
            assert(old(out)@ + dec_digits(n as int) =~= old(out)@.push(digit_char(n as int)));
        }
    }
}

/// Lexicographic order on character sequences, comparing code points. For
/// ASCII and, more generally, for any UTF-8 text this coincides with the
/// byte-wise ordering a storage engine applies to text columns.
pub open spec fn lex_le(a: Seq<char>, b: Seq<char>) -> bool
    decreases a.len(),
{
    if a.len() == 0 {
        true
    } else if b.len() == 0 {
        false
    } else if (a.first() as u32) < (b.first() as u32) {
        true
    } else if (b.first() as u32) < (a.first() as u32) {
        false
    } else {
        lex_le(a.drop_first(), b.drop_first())
    }
}

/// `lex_le` is total: any two sequences compare one way or the other.
pub proof fn lemma_lex_le_total(a: Seq<char>, b: Seq<char>)
    ensures
        lex_le(a, b) || lex_le(b, a),
    decreases a.len(),
{
    if a.len() > 0 && b.len() > 0 && a.first() as u32 == b.first() as u32 {
        lemma_lex_le_total(a.drop_first(), b.drop_first());
    }
}

/// `lex_le` is transitive.
pub proof fn lemma_lex_le_trans(a: Seq<char>, b: Seq<char>, c: Seq<char>)
    requires
        lex_le(a, b),
        lex_le(b, c),
    ensures
        lex_le(a, c),
    decreases a.len(),
{
    if a.len() > 0 && b.len() > 0 && c.len() > 0 {
        if a.first() as u32 == b.first() as u32 && b.first() as u32 == c.first() as u32 {
            lemma_lex_le_trans(a.drop_first(), b.drop_first(), c.drop_first());
        }
    }
}

/// Character-wise lexicographic comparison of two string slices.
pub fn lex_le_str(a: &str, b: &str) -> (r: bool)
    ensures
        r == lex_le(a@, b@),
{
    let n: usize = a.unicode_len();
    let m: usize = b.unicode_len();
    proof {
        assert(a@.subrange(0, n as int) =~= a@);
        assert(b@.subrange(0, m as int) =~= b@);
    }
    let mut i: usize = 0;
    while i < n && i < m
        invariant
            n == a@.len(),
            m == b@.len(),
            i <= n,
            i <= m,
            lex_le(a@, b@) == lex_le(
                a@.subrange(i as int, n as int),
                b@.subrange(i as int, m as int),
            ),
        decreases n - i,
    {
        let ghost resta = a@.subrange(i as int, n as int);
        let ghost restb = b@.subrange(i as int, m as int);
        proof {
            assert(resta.first() == a@[i as int]);
            assert(restb.first() == b@[i as int]);
            assert(resta.drop_first() =~= a@.subrange(i as int + 1, n as int));
            assert(restb.drop_first() =~= b@.subrange(i as int + 1, m as int));
        }
        let ca = a.get_char(i) as u32;
        let cb = b.get_char(i) as u32;
        if ca < cb {
            return true;
        }
        if cb < ca {
            return false;
        }
        i += 1;
    }
    proof {
        if i == n {
            assert(a@.subrange(i as int, n as int) =~= Seq::<char>::empty());
        } else {
            assert(b@.subrange(i as int, m as int) =~= Seq::<char>::empty());
            assert(a@.subrange(i as int, n as int).len() > 0);
        }
    }
    i == n
}

/// Character-wise equality of two string slices.
pub fn str_eq(a: &str, b: &str) -> (r: bool)
    ensures
        r == (a@ == b@),
{
    let n: usize = a.unicode_len();
    let m: usize = b.unicode_len();
    if n != m {
        return false;
    }
    let mut i: usize = 0;
    while i < n
        invariant
            n == a@.len(),
            n == b@.len(),
            i <= n,
            forall|j: int| 0 <= j < i ==> a@[j] == b@[j],
        decreases n - i,
    {
        if a.get_char(i) != b.get_char(i) {
            return false;
        }
        i += 1;
    }
    proof {
        assert(a@ =~= b@);
    }
    true
}

/// Render a signed 64-bit value in decimal.
pub fn i64_to_string(n: i64) -> (r: String)
    ensures
        r@ == i64_dec(n as int),
{
    let mut out = String::new();
    if n >= 0 {
        push_dec_u64(&mut out, n as u64);
        proof {
            assert(Seq::<char>::empty() + dec_digits(n as int) =~= dec_digits(n as int));
        }
    } else {
        out.push('-');
        // The magnitude of i64::MIN does not fit in an i64, so go through
        // n + 1 before negating.
        let mag: u64 = ((-(n + 1)) as u64) + 1;
        push_dec_u64(&mut out, mag);
        proof {
            assert(Seq::<char>::empty().push('-') =~= seq!['-']);
            assert(seq!['-'] + dec_digits(mag as int) =~= i64_dec(n as int));
        }
    }
    out
}

/// An ASCII decimal digit.
pub open spec fn is_dec_digit(c: char) -> bool {
    48 <= c as u32 <= 57
}

/// The numeric value of a digit sequence, most significant digit first.
pub open spec fn digits_val(s: Seq<char>) -> int
    decreases s.len(),
{
    if s.len() == 0 {
        0
    } else {
        digits_val(s.drop_last()) * 10 + (s.last() as u32 - 48)
    }
}

/// Digit sequences have non-negative values, and a prefix never exceeds the
/// whole.
pub proof fn lemma_digits_val_bounds(s: Seq<char>, t: int)
    requires
        0 <= t <= s.len(),
        forall|i: int| 0 <= i < s.len() ==> is_dec_digit(#[trigger] s[i]),
    ensures
        0 <= digits_val(s.subrange(0, t)),
        digits_val(s.subrange(0, t)) <= digits_val(s),
    decreases s.len(),
{
    if s.len() == 0 {
        assert(s.subrange(0, t) =~= s);
    } else if t == s.len() {
        assert(s.subrange(0, t) =~= s);
        lemma_digits_val_bounds(s.drop_last(), t - 1);
        assert(s.drop_last().subrange(0, t - 1) =~= s.drop_last());
    } else {
        let v = s.drop_last();
        assert forall|i: int| 0 <= i < v.len() implies is_dec_digit(#[trigger] v[i]) by {
            assert(v[i] == s[i]);
        }
        assert(s.subrange(0, t) =~= v.subrange(0, t));
        lemma_digits_val_bounds(v, t);
        lemma_digits_val_bounds(v, v.len() as int);
        assert(v.subrange(0, v.len() as int) =~= v);
        assert(digits_val(s) == digits_val(v) * 10 + (s.last() as u32 - 48));
        assert(digits_val(v) * 10 >= digits_val(v));
    }
}

/// A valid decimal rendering of a signed 64-bit value: an optional sign,
/// then at least one digit, with the value in range.
pub open spec fn is_i64_literal(s: Seq<char>) -> bool {
    if s.len() > 0 && (s[0] == '+' || s[0] == '-') {
        let ds = s.drop_first();
        &&& ds.len() > 0
        &&& forall|i: int| 0 <= i < ds.len() ==> is_dec_digit(#[trigger] ds[i])
        &&& (if s[0] == '-' {
            -digits_val(ds) >= i64::MIN
        } else {
            digits_val(ds) <= i64::MAX
        })
    } else {
        &&& s.len() > 0
        &&& forall|i: int| 0 <= i < s.len() ==> is_dec_digit(#[trigger] s[i])
        &&& digits_val(s) <= i64::MAX
    }
}

/// The value of a valid decimal rendering.
pub open spec fn i64_literal_val(s: Seq<char>) -> int {
    if s.len() > 0 && s[0] == '-' {
        -digits_val(s.drop_first())
    } else if s.len() > 0 && s[0] == '+' {
        digits_val(s.drop_first())
    } else {
        digits_val(s)
    }
}

/// Parse a signed 64-bit decimal value, accepting exactly an optional sign
/// followed by one or more digits, with the value in range.
pub fn parse_i64(s: &str) -> (r: Option<i64>)
    ensures
        r is Some <==> is_i64_literal(s@),
        (match r {
            Some(v) => v as int == i64_literal_val(s@),
            None => true,
        }),
{
    let n: usize = s.unicode_len();
    if n == 0 {
        return None;
    }
    let c0 = s.get_char(0);
    let neg = c0 == '-';
    let start: usize = if c0 == '-' || c0 == '+' {
        1
    } else {
        0
    };
    if n == start {
        return None;
    }
    let ghost ds = s@.subrange(start as int, n as int);
    // accumulate the negated magnitude, so that i64::MIN parses too
    let mut acc: i64 = 0;
    let mut i: usize = start;
    while i < n
        invariant
            n == s@.len(),
            start == 0 || start == 1,
            (start == 1) <==> (s@.len() > 0 && (s@[0] == '+' || s@[0] == '-')),
            neg == (s@[0] == '-'),
            start <= i <= n,
            start < n,
            ds == s@.subrange(start as int, n as int),
            acc <= 0,
            forall|t: int| 0 <= t < i - start ==> is_dec_digit(#[trigger] ds[t]),
            acc as int == -digits_val(ds.subrange(0, i - start)),
        decreases n - i,
    {
        let c = s.get_char(i);
        let u = c as u32;
        if !(48 <= u && u <= 57) {
            proof {
                assert(ds[(i - start) as int] == s@[i as int]);
                assert(!is_dec_digit(ds[(i - start) as int]));
                if is_i64_literal(s@) {
                    if start == 1 {
                        assert(s@.drop_first() =~= ds);
                    } else {
                        assert(s@ =~= ds);
                    }
                }
            }
            return None;
        }
        let d = (u - 48) as i64;
        proof {
            assert(ds.subrange(0, (i + 1 - start) as int).drop_last() =~= ds.subrange(
                0,
                (i - start) as int,
            ));
            assert(ds.subrange(0, (i + 1 - start) as int).last() == s@[i as int]);
        }
        let shifted = match acc.checked_mul(10) {
            Some(x) => x,
            None => {
                proof {
                    lemma_parse_reject_overflow(s@, ds, start as int, (i - start) as int);
                }
                return None;
            },
        };
        acc = match shifted.checked_sub(d) {
            Some(x) => x,
            None => {
                proof {
                    lemma_parse_reject_overflow(s@, ds, start as int, (i - start) as int);
                }
                return None;
            },
        };
        i += 1;
    }
    proof {
        assert(ds.subrange(0, (n - start) as int) =~= ds);
        if start == 1 {
            assert(s@.drop_first() =~= ds);
        } else {
            assert(s@ =~= ds);
        }
    }
    if neg {
        Some(acc)
    } else {
        if acc == i64::MIN {
            return None;
        }
        Some(-acc)
    }
}

/// A number whose digit prefix already exceeds the 64-bit range is no
/// 64-bit literal, with either sign.
proof fn lemma_parse_reject_overflow(s: Seq<char>, ds: Seq<char>, start: int, t: int)
    requires
        start == 0 || start == 1,
        start == 1 <==> (s.len() > 0 && (s[0] == '+' || s[0] == '-')),
        ds == s.subrange(start, s.len() as int),
        0 <= t < ds.len(),
        forall|i: int| 0 <= i < t ==> is_dec_digit(#[trigger] ds[i]),
        is_dec_digit(ds[t]),
        digits_val(ds.subrange(0, t)) * 10 + (ds[t] as u32 - 48) > -(i64::MIN as int),
    ensures
        !is_i64_literal(s),
{
    if is_i64_literal(s) {
        if start == 1 {
            assert(s.drop_first() =~= ds);
        } else {
            assert(s =~= ds);
        }
        assert(forall|i: int| 0 <= i < ds.len() ==> is_dec_digit(#[trigger] ds[i]));
        lemma_digits_val_bounds(ds, t + 1);
        assert(ds.subrange(0, t + 1).drop_last() =~= ds.subrange(0, t));
        assert(ds.subrange(0, t + 1).last() == ds[t]);
        assert(digits_val(ds.subrange(0, t + 1)) > -(i64::MIN as int));
        assert(digits_val(ds) > -(i64::MIN as int));
    }
}

} // verus!
