//! Decimal rendering of integers and small string helpers.

use vstd::prelude::*;

verus! {

/// The character for a decimal digit `d` (0..=9).
pub open spec fn digit_char(d: int) -> char {
    if d == 0 { '0' }
    else if d == 1 { '1' }
    else if d == 2 { '2' }
    else if d == 3 { '3' }
    else if d == 4 { '4' }
    else if d == 5 { '5' }
    else if d == 6 { '6' }
    else if d == 7 { '7' }
    else if d == 8 { '8' }
    else { '9' }
}

/// Decimal digits of a natural number, most significant first, no leading zeros.
pub open spec fn decimal_nat(n: nat) -> Seq<char>
    decreases n,
{
    if n < 10 {
        seq![digit_char(n as int)]
    } else {
        decimal_nat(n / 10).push(digit_char((n % 10) as int))
    }
}

/// Decimal rendering of an integer, with a leading '-' when negative.
pub open spec fn decimal(i: int) -> Seq<char> {
    if i < 0 {
        seq!['-'] + decimal_nat((-i) as nat)
    } else {
        decimal_nat(i as nat)
    }
}

fn digit_str(d: u64) -> (r: &'static str)
    requires
        d < 10,
    ensures
        r@ == seq![digit_char(d as int)],
{
    proof {
        reveal_strlit("0");
        reveal_strlit("1");
        reveal_strlit("2");
        reveal_strlit("3");
        reveal_strlit("4");
        reveal_strlit("5");
        reveal_strlit("6");
        reveal_strlit("7");
        reveal_strlit("8");
        reveal_strlit("9");
    }
    if d == 0 { "0" }
    else if d == 1 { "1" }
    else if d == 2 { "2" }
    else if d == 3 { "3" }
    else if d == 4 { "4" }
    else if d == 5 { "5" }
    else if d == 6 { "6" }
    else if d == 7 { "7" }
    else if d == 8 { "8" }
    else { "9" }
}

/// Appends the decimal digits of `n` to `out`.
pub fn push_decimal_u64(out: &mut String, n: u64)
    ensures
        final(out)@ == old(out)@ + decimal_nat(n as nat),
    decreases n,
{
    if n < 10 {
        out.append(digit_str(n));
    } else {
        push_decimal_u64(out, n / 10);
        out.append(digit_str(n % 10));
    }
}

/// Appends the decimal rendering of `i` to `out`.
pub fn push_decimal_i64(out: &mut String, i: i64)
    ensures
        final(out)@ == old(out)@ + decimal(i as int),
{
    if i < 0 {
        proof { reveal_strlit("-"); }
        out.append("-");
        let mag: u64 = if i == i64::MIN {
            9223372036854775808u64
        } else {
            (-i) as u64
        };
        push_decimal_u64(out, mag);
        assert(out@ =~= old(out)@ + decimal(i as int));
    } else {
        push_decimal_u64(out, i as u64);
    }
}

/// Decimal rendering of `i` as a new string.
pub fn decimal_string(i: i64) -> (r: String)
    ensures
        r@ == decimal(i as int),
{
    let mut s = String::new();
    push_decimal_i64(&mut s, i);
    assert(s@ =~= decimal(i as int));
    s
}

/// `c` is one of the ASCII digits '0'..='9'.
pub open spec fn is_digit(c: char) -> bool {
    '0' <= c && c <= '9'
}

/// The value of an ASCII digit.
pub open spec fn digit_value(c: char) -> nat {
    (c as int - '0' as int) as nat
}

/// Every character of `s` is an ASCII digit.
pub open spec fn all_digits(s: Seq<char>) -> bool {
    forall|i: int| 0 <= i < s.len() ==> is_digit(#[trigger] s[i])
}

/// The number written by the digits `s`, most significant first.
pub open spec fn digits_value(s: Seq<char>) -> nat
    decreases s.len(),
{
    if s.len() == 0 {
        0
    } else {
        digits_value(s.drop_last()) * 10 + digit_value(s.last())
    }
}

/// The value of an unsigned decimal integer as Rust's `str::parse` reads it:
/// an optional '+' followed by one or more digits, nothing else.
pub open spec fn unsigned_text(s: Seq<char>) -> Option<nat> {
    let d = if s.len() > 0 && s[0] == '+' { s.drop_first() } else { s };
    if d.len() > 0 && all_digits(d) { Some(digits_value(d)) } else { None }
}

/// The value of a signed decimal integer as Rust's `str::parse` reads it:
/// an optional '+' or '-' followed by one or more digits, nothing else.
pub open spec fn signed_text(s: Seq<char>) -> Option<int> {
    if s.len() > 0 && s[0] == '-' {
        let d = s.drop_first();
        if d.len() > 0 && all_digits(d) { Some(-(digits_value(d) as int)) } else { None }
    } else {
        match unsigned_text(s) {
            Some(v) => Some(v as int),
            None => None,
        }
    }
}

pub proof fn lemma_digits_value_grows(s: Seq<char>, k: int)
    requires
        0 <= k <= s.len(),
        all_digits(s),
    ensures
        digits_value(s.take(k)) <= digits_value(s),
    decreases s.len() - k,
{
    if k < s.len() {
        lemma_digits_value_grows(s, k + 1);
        assert(s.take(k + 1).drop_last() =~= s.take(k));
    } else {
        assert(s.take(k) =~= s);
    }
}

fn digit_of(c: char) -> (r: Option<u64>)
    ensures
        r is Some <==> is_digit(c),
        r is Some ==> r->0 == digit_value(c),
{
    if c == '0' { Some(0) }
    else if c == '1' { Some(1) }
    else if c == '2' { Some(2) }
    else if c == '3' { Some(3) }
    else if c == '4' { Some(4) }
    else if c == '5' { Some(5) }
    else if c == '6' { Some(6) }
    else if c == '7' { Some(7) }
    else if c == '8' { Some(8) }
    else if c == '9' { Some(9) }
    else { None }
}

/// Reads the digits `s[lo..hi]`, giving their value when it is at most `limit`.
fn digits_at_most(s: &[char], lo: usize, hi: usize, limit: u64) -> (r: Option<u64>)
    requires
        lo <= hi <= s@.len(),
        limit >= 9,
    ensures
        ({
            let d = s@.subrange(lo as int, hi as int);
            match r {
                Some(v) => d.len() > 0 && all_digits(d) && v == digits_value(d) && v <= limit,
                None => !(d.len() > 0 && all_digits(d) && digits_value(d) <= limit),
            }
        }),
{
    let ghost d = s@.subrange(lo as int, hi as int);
    if lo == hi {
        return None;
    }
    let mut acc: u64 = 0;
    let mut i: usize = lo;
    assert(d.take(0) =~= Seq::<char>::empty());
    while i < hi
        invariant
            lo <= i <= hi <= s@.len(),
            d == s@.subrange(lo as int, hi as int),
            all_digits(d.take(i - lo)),
            acc == digits_value(d.take(i - lo)),
            acc <= limit,
            limit >= 9,
        decreases hi - i,
    {
        let c = s[i];
        let dv = match digit_of(c) {
            Some(v) => v,
            None => {
                assert(d[i - lo] == c);
                return None;
            },
        };
        assert(d.take(i - lo + 1).drop_last() =~= d.take(i - lo));
        assert(d.take(i - lo + 1).last() == c);
        if acc > (limit - dv) / 10 {
            proof {
                assert(acc * 10 + dv > limit) by (nonlinear_arith)
                    requires acc > (limit - dv) / 10, dv <= 9, limit >= 0;
                assert(digits_value(d.take(i - lo + 1)) > limit);
                if d.len() > 0 && all_digits(d) {
                    lemma_digits_value_grows(d, i - lo + 1);
                }
            }
            return None;
        }
        proof {
            assert(acc * 10 + dv <= limit) by (nonlinear_arith)
                requires acc <= (limit - dv) / 10, dv <= 9, dv <= limit;
        }
        acc = acc * 10 + dv;
        i += 1;
        assert(all_digits(d.take(i - lo))) by {
            assert forall|j: int| 0 <= j < d.take(i - lo).len() implies is_digit(#[trigger] d.take(i - lo)[j]) by {
                if j < i - 1 - lo {
                    assert(d.take(i - lo)[j] == d.take(i - 1 - lo)[j]);
                }
            }
        }
    }
    assert(d.take(hi - lo) =~= d);
    Some(acc)
}

/// Parses `s[lo..hi]` as a `usize` the way Rust's `str::parse` does:
/// `None` when the text is not an optional '+' and digits, or the value
/// does not fit.
pub fn parse_usize_at(s: &[char], lo: usize, hi: usize) -> (r: Option<usize>)
    requires
        lo <= hi <= s@.len(),
    ensures
        ({
            let t = s@.subrange(lo as int, hi as int);
            match r {
                Some(v) => unsigned_text(t) == Some(v as nat),
                None => match unsigned_text(t) {
                    Some(v) => v > usize::MAX,
                    None => true,
                },
            }
        }),
{
    let ghost t = s@.subrange(lo as int, hi as int);
    let start = if lo < hi && s[lo] == '+' { lo + 1 } else { lo };
    proof {
        if lo < hi && s@[lo as int] == '+' {
            assert(t.drop_first() =~= s@.subrange(start as int, hi as int));
        } else {
            assert(t =~= s@.subrange(start as int, hi as int));
        }
    }
    let limit: u64 = if usize::MAX as u64 >= u64::MAX { u64::MAX } else { usize::MAX as u64 };
    match digits_at_most(s, start, hi, limit) {
        Some(v) => Some(v as usize),
        None => None,
    }
}

/// Parses `s[lo..hi]` as an `i32` the way Rust's `str::parse` does:
/// `None` when the text is not an optional sign and digits, or the value
/// does not fit.
pub fn parse_i32_at(s: &[char], lo: usize, hi: usize) -> (r: Option<i32>)
    requires
        lo <= hi <= s@.len(),
    ensures
        ({
            let t = s@.subrange(lo as int, hi as int);
            match r {
                Some(v) => signed_text(t) == Some(v as int),
                None => match signed_text(t) {
                    Some(v) => v < i32::MIN || v > i32::MAX,
                    None => true,
                },
            }
        }),
{
    let ghost t = s@.subrange(lo as int, hi as int);
    if lo < hi && s[lo] == '-' {
        assert(t.drop_first() =~= s@.subrange(lo + 1, hi as int));
        match digits_at_most(s, lo + 1, hi, 2147483648u64) {
            Some(v) => {
                let w: i64 = -(v as i64);
                Some(w as i32)
            },
            None => None,
        }
    } else {
        let start = if lo < hi && s[lo] == '+' { lo + 1 } else { lo };
        proof {
            if lo < hi && s@[lo as int] == '+' {
                assert(t.drop_first() =~= s@.subrange(start as int, hi as int));
            } else {
                assert(t =~= s@.subrange(start as int, hi as int));
            }
        }
        match digits_at_most(s, start, hi, 2147483647u64) {
            Some(v) => Some(v as i32),
            None => None,
        }
    }
}

proof fn lemma_digit_char_value(d: int)
    requires
        0 <= d < 10,
    ensures
        is_digit(digit_char(d)),
        digit_value(digit_char(d)) == d,
{
}

/// The decimal digits of `n` read back as `n`: they are digits, at least one,
/// and their value is `n`.
pub proof fn lemma_decimal_nat_reads_back(n: nat)
    ensures
        decimal_nat(n).len() > 0,
        all_digits(decimal_nat(n)),
        digits_value(decimal_nat(n)) == n,
    decreases n,
{
    lemma_digit_char_value((n % 10) as int);
    if n < 10 {
        let t = seq![digit_char(n as int)];
        assert(t.drop_last() =~= Seq::<char>::empty());
        assert(digits_value(t) == digits_value(t.drop_last()) * 10 + digit_value(t.last()));
    } else {
        lemma_decimal_nat_reads_back(n / 10);
        let s = decimal_nat(n / 10);
        let t = s.push(digit_char((n % 10) as int));
        assert(t.drop_last() =~= s);
        assert(digits_value(t) == digits_value(s) * 10 + digit_value(t.last()));
        assert((n / 10) * 10 + n % 10 == n);
        assert forall|i: int| 0 <= i < t.len() implies is_digit(#[trigger] t[i]) by {
            if i < s.len() {
                assert(t[i] == s[i]);
            }
        }
    }
}

/// Rendering an integer in decimal and reading it back as Rust's
/// `str::parse` does gives the integer again.
pub proof fn law_decimal_reads_back(i: int)
    ensures
        signed_text(decimal(i)) == Some(i),
        i >= 0 ==> unsigned_text(decimal(i)) == Some(i as nat),
{
    if i < 0 {
        let d = decimal_nat((-i) as nat);
        lemma_decimal_nat_reads_back((-i) as nat);
        assert((seq!['-'] + d).drop_first() =~= d);
    } else {
        lemma_decimal_nat_reads_back(i as nat);
        let d = decimal_nat(i as nat);
        assert(is_digit(d[0]));
    }
}

} // verus!
