//! The position-tax rules a fixed-strategy trainer can be told to use, read
//! from their names: `none`, `flat`, `original`, `capped:N`, `shift:N`,
//! `quadratic` and `pergap:c0,..,c5`.

use vstd::prelude::*;
use crate::text::{decimal, decimal_nat, push_decimal_u64, is_digit, digit_value, digits_value, all_digits, lemma_digits_value_grows};
use crate::sizes::{split_commas, split_from};

verus! {

/// Why a text is no `u32`, in the terms that Rust's integer parsing uses.
#[derive(Debug, Clone, Copy, PartialEq, Eq, Structural)]
pub enum IntTextError {
    Empty,
    InvalidDigit,
    TooLarge,
}

/// Why a text is no floating-point number, in the terms that Rust's float
/// parsing uses.
#[derive(Debug, Clone, Copy, PartialEq, Eq, Structural)]
pub enum FloatTextError {
    Empty,
    Invalid,
}

/// A rule for the tax moved between the two seats left in a hand, by how
/// far apart their positions are. The six coefficients of `PerGap`, one per
/// gap, stay text, each one checked to be a number that `f32::from_str`
/// accepts: reading them as numbers is left to the caller.
#[derive(Debug, PartialEq, Eq)]
pub enum TaxMode {
    Off,
    Flat,
    Original,
    Capped { cap: u32 },
    Shift { shift: u32 },
    Quadratic,
    PerGap { coeffs: Vec<String> },
}

/// Why a name is no tax rule.
#[derive(Debug, PartialEq, Eq)]
pub enum TaxModeError {
    /// The cap after `capped` is no `u32`.
    Cap(IntTextError),
    /// The amount after `shift` is no `u32`.
    Shift(IntTextError),
    /// The amount after `shift` is 5 or more.
    ShiftTooLarge,
    /// `pergap` is followed by this many comma-separated pieces, not six.
    PerGapCount(usize),
    /// The coefficient at this index is no floating-point number.
    PerGapCoeff(usize, FloatTextError),
    /// No rule has this name (given in lower case).
    Unknown(String),
}

/// A tax rule as a value of the specification.
pub enum TaxModeView {
    Off,
    Flat,
    Original,
    Capped(u32),
    Shift(u32),
    Quadratic,
    PerGap(Seq<Seq<char>>),
}

/// Why a name is no tax rule, as a value of the specification.
pub enum TaxModeErrorView {
    Cap(IntTextError),
    Shift(IntTextError),
    ShiftTooLarge,
    PerGapCount(nat),
    PerGapCoeff(nat, FloatTextError),
    Unknown(Seq<char>),
}

impl View for TaxMode {
    type V = TaxModeView;

    open spec fn view(&self) -> TaxModeView {
        match self {
            TaxMode::Off => TaxModeView::Off,
            TaxMode::Flat => TaxModeView::Flat,
            TaxMode::Original => TaxModeView::Original,
            TaxMode::Capped { cap } => TaxModeView::Capped(*cap),
            TaxMode::Shift { shift } => TaxModeView::Shift(*shift),
            TaxMode::Quadratic => TaxModeView::Quadratic,
            TaxMode::PerGap { coeffs } => TaxModeView::PerGap(coeffs@.map_values(|c: String| c@)),
        }
    }
}

impl View for TaxModeError {
    type V = TaxModeErrorView;

    open spec fn view(&self) -> TaxModeErrorView {
        match self {
            TaxModeError::Cap(e) => TaxModeErrorView::Cap(*e),
            TaxModeError::Shift(e) => TaxModeErrorView::Shift(*e),
            TaxModeError::ShiftTooLarge => TaxModeErrorView::ShiftTooLarge,
            TaxModeError::PerGapCount(n) => TaxModeErrorView::PerGapCount(*n as nat),
            TaxModeError::PerGapCoeff(i, e) => TaxModeErrorView::PerGapCoeff(*i as nat, *e),
            TaxModeError::Unknown(s) => TaxModeErrorView::Unknown(s@),
        }
    }
}

/// `s` with the ASCII letters 'A'..='Z' made lower case and every other
/// character kept.
pub open spec fn ascii_lowercase(s: Seq<char>) -> Seq<char> {
    s.map_values(|c: char| if 'A' <= c <= 'Z' { (c as int + 32) as char } else { c })
}

/// `s` without the copies of `c` it starts with.
pub open spec fn strip_leading(s: Seq<char>, c: char) -> Seq<char>
    decreases s.len(),
{
    if s.len() > 0 && s[0] == c {
        strip_leading(s.drop_first(), c)
    } else {
        s
    }
}

/// What follows a rule's name once the ':' and then the '=' that lead it
/// are stripped, as in `capped:3` or `capped=3`.
pub open spec fn after_marks(s: Seq<char>) -> Seq<char> {
    strip_leading(strip_leading(s, ':'), '=')
}

/// `s` starts with `p`.
pub open spec fn starts_with(s: Seq<char>, p: Seq<char>) -> bool {
    p.len() <= s.len() && s.take(p.len() as int) == p
}

/// How many ASCII digits `d` starts with.
pub open spec fn leading_digits(d: Seq<char>) -> nat
    decreases d.len(),
{
    if d.len() > 0 && is_digit(d[0]) {
        1 + leading_digits(d.drop_first())
    } else {
        0
    }
}

/// `c` read as a `u32` the way Rust's `str::parse` reads it: an optional
/// '+' and then digits. Reading stops at the first character that is no
/// digit, or once the digits read stand for more than `u32::MAX`, and
/// reports whichever comes first.
pub open spec fn u32_text(c: Seq<char>) -> Result<nat, IntTextError> {
    if c.len() == 0 {
        Err(IntTextError::Empty)
    } else {
        let d = if c[0] == '+' { c.drop_first() } else { c };
        let k = leading_digits(d);
        if digits_value(d.take(k as int)) > u32::MAX {
            Err(IntTextError::TooLarge)
        } else if k < d.len() || d.len() == 0 {
            Err(IntTextError::InvalidDigit)
        } else {
            Ok(digits_value(d))
        }
    }
}

/// `y` is an optional sign and then one or more digits.
pub open spec fn signed_digits(y: Seq<char>) -> bool {
    let d = if y.len() > 0 && (y[0] == '+' || y[0] == '-') { y.drop_first() } else { y };
    d.len() > 0 && all_digits(d)
}

/// `t` is a decimal number as Rust's float parsing reads it: digits with at
/// most one '.', at least one digit in all, then optionally 'e' and an
/// exponent of an optional sign and digits.
pub open spec fn float_number(t: Seq<char>) -> bool {
    let i = leading_digits(t) as int;
    let dot = i < t.len() && t[i] == '.';
    let f = if dot { leading_digits(t.skip(i + 1)) as int } else { 0 };
    let j = if dot { i + 1 + f } else { i };
    let x = t.skip(j);
    i + f > 0 && (x.len() == 0 || (x[0] == 'e' && signed_digits(x.drop_first())))
}

/// Why `t`, already in lower case, is no number that `f32::from_str`
/// accepts, or `None` when it is one. Its documentation gives the grammar:
/// an optional sign, then `inf`, `infinity`, `nan` or a decimal number;
/// nothing else, white space included, is accepted.
pub open spec fn float_text_error(t: Seq<char>) -> Option<FloatTextError> {
    if t.len() == 0 {
        Some(FloatTextError::Empty)
    } else {
        let u = if t[0] == '+' || t[0] == '-' { t.drop_first() } else { t };
        if u == seq!['i', 'n', 'f'] || u == seq!['i', 'n', 'f', 'i', 'n', 'i', 't', 'y'] || u == seq!['n', 'a', 'n']
            || float_number(u) {
            None
        } else {
            Some(FloatTextError::Invalid)
        }
    }
}

/// The first of the pieces from index `i` on that is no number, with why.
pub open spec fn first_bad_number(parts: Seq<Seq<char>>, i: nat) -> Option<(nat, FloatTextError)>
    decreases parts.len() - i,
{
    if i >= parts.len() {
        None
    } else {
        match float_text_error(parts[i as int]) {
            Some(e) => Some((i, e)),
            None => first_bad_number(parts, i + 1),
        }
    }
}

pub open spec fn word_capped() -> Seq<char> {
    seq!['c', 'a', 'p', 'p', 'e', 'd']
}

pub open spec fn word_shift() -> Seq<char> {
    seq!['s', 'h', 'i', 'f', 't']
}

pub open spec fn word_pergap() -> Seq<char> {
    seq!['p', 'e', 'r', 'g', 'a', 'p']
}

/// The rule named by `t`, already in lower case.
pub open spec fn tax_outcome(t: Seq<char>) -> Result<TaxModeView, TaxModeErrorView> {
    if t == seq!['n', 'o', 'n', 'e'] || t == seq!['o', 'f', 'f'] || t == seq!['0'] {
        Ok(TaxModeView::Off)
    } else if t == seq!['f', 'l', 'a', 't'] {
        Ok(TaxModeView::Flat)
    } else if t == seq!['o', 'r', 'i', 'g', 'i', 'n', 'a', 'l'] || t == seq!['o', 'r', 'i', 'g']
        || t == seq!['g', 'a', 'p', '5'] {
        Ok(TaxModeView::Original)
    } else if t == seq!['q', 'u', 'a', 'd', 'r', 'a', 't', 'i', 'c'] || t == seq!['q', 'u', 'a', 'd']
        || t == seq!['s', 'q', 'r', 't'] {
        Ok(TaxModeView::Quadratic)
    } else if starts_with(t, word_capped()) {
        let c = after_marks(t.skip(6));
        if c.len() == 0 {
            Ok(TaxModeView::Capped(2))
        } else {
            match u32_text(c) {
                Ok(v) => Ok(TaxModeView::Capped(if v >= 1 { v as u32 } else { 1 })),
                Err(e) => Err(TaxModeErrorView::Cap(e)),
            }
        }
    } else if starts_with(t, word_shift()) {
        let c = after_marks(t.skip(5));
        if c.len() == 0 {
            Ok(TaxModeView::Shift(1))
        } else {
            match u32_text(c) {
                Ok(v) => if v >= 5 {
                    Err(TaxModeErrorView::ShiftTooLarge)
                } else {
                    Ok(TaxModeView::Shift(v as u32))
                },
                Err(e) => Err(TaxModeErrorView::Shift(e)),
            }
        }
    } else if starts_with(t, word_pergap()) {
        let parts = split_commas(after_marks(t.skip(6)));
        if parts.len() != 6 {
            Err(TaxModeErrorView::PerGapCount(parts.len()))
        } else {
            match first_bad_number(parts, 0) {
                Some((i, e)) => Err(TaxModeErrorView::PerGapCoeff(i, e)),
                None => Ok(TaxModeView::PerGap(parts)),
            }
        }
    } else {
        Err(TaxModeErrorView::Unknown(t))
    }
}

/// The view of a tax rule's reading.
pub open spec fn outcome_view(r: Result<TaxMode, TaxModeError>) -> Result<TaxModeView, TaxModeErrorView> {
    match r {
        Ok(m) => Ok(m@),
        Err(e) => Err(e@),
    }
}

/// A copy of `s` with ASCII letters in lower case (`str::to_ascii_lowercase`,
/// whose documentation says that 'A' to 'Z' become 'a' to 'z' and every
/// other character stays as it is).
#[verifier::external_body]
fn lowercase_ascii(s: &str) -> (r: String)
    ensures
        r@ == ascii_lowercase(s@),
{
    s.to_ascii_lowercase()
}

proof fn lemma_leading_digits(d: Seq<char>)
    ensures
        leading_digits(d) <= d.len(),
        all_digits(d.take(leading_digits(d) as int)),
        leading_digits(d) < d.len() ==> !is_digit(d[leading_digits(d) as int]),
    decreases d.len(),
{
    if d.len() > 0 && is_digit(d[0]) {
        let r = d.drop_first();
        lemma_leading_digits(r);
        let k = leading_digits(r) as int;
        assert forall|j: int| 0 <= j < k + 1 implies is_digit(#[trigger] d.take(k + 1)[j]) by {
            if j > 0 {
                assert(d.take(k + 1)[j] == r.take(k)[j - 1]);
            }
        }
    } else {
        assert(d.take(0).len() == 0);
    }
}

/// `s` and `w` hold the same characters.
fn same_text(s: &str, w: &str) -> (r: bool)
    ensures
        r == (s@ == w@),
{
    let n = s.unicode_len();
    if n != w.unicode_len() {
        return false;
    }
    let mut i: usize = 0;
    while i < n
        invariant
            n == s@.len(),
            n == w@.len(),
            i <= n,
            forall|j: int| 0 <= j < i ==> s@[j] == w@[j],
        decreases n - i,
    {
        if s.get_char(i) != w.get_char(i) {
            return false;
        }
        i += 1;
    }
    assert(s@ =~= w@);
    true
}

/// `s` starts with `p`.
fn begins_with(s: &str, p: &str) -> (r: bool)
    ensures
        r == starts_with(s@, p@),
{
    let n = s.unicode_len();
    let k = p.unicode_len();
    if k > n {
        return false;
    }
    let mut i: usize = 0;
    while i < k
        invariant
            n == s@.len(),
            k == p@.len(),
            k <= n,
            i <= k,
            forall|j: int| 0 <= j < i ==> s@[j] == p@[j],
        decreases k - i,
    {
        if s.get_char(i) != p.get_char(i) {
            assert(s@.take(k as int)[i as int] != p@[i as int]);
            return false;
        }
        i += 1;
    }
    assert(s@.take(k as int) =~= p@);
    true
}

/// The position in `s` past the copies of `c` that stand from `from` on.
fn skip_run(s: &str, from: usize, c: char) -> (r: usize)
    requires
        from <= s@.len(),
    ensures
        from <= r <= s@.len(),
        strip_leading(s@.skip(from as int), c) == s@.skip(r as int),
{
    let n = s.unicode_len();
    let mut i = from;
    while i < n && s.get_char(i) == c
        invariant
            n == s@.len(),
            from <= i <= n,
            strip_leading(s@.skip(from as int), c) == strip_leading(s@.skip(i as int), c),
        decreases n - i,
    {
        assert(s@.skip(i as int).drop_first() =~= s@.skip(i + 1));
        i += 1;
    }
    i
}

/// Reads `s[from..]` as a `u32`.
fn read_u32(s: &str, from: usize) -> (r: Result<u32, IntTextError>)
    requires
        from <= s@.len(),
    ensures
        match r {
            Ok(v) => u32_text(s@.skip(from as int)) == Ok::<nat, IntTextError>(v as nat),
            Err(e) => u32_text(s@.skip(from as int)) == Err::<nat, IntTextError>(e),
        },
{
    let ghost c = s@.skip(from as int);
    let n = s.unicode_len();
    if from == n {
        return Err(IntTextError::Empty);
    }
    let lo = if s.get_char(from) == '+' { from + 1 } else { from };
    let ghost d = s@.skip(lo as int);
    assert(d =~= (if c[0] == '+' { c.drop_first() } else { c }));
    proof {
        lemma_leading_digits(d);
    }
    let ghost k = leading_digits(d) as int;
    let mut acc: u64 = 0;
    let mut i: usize = lo;
    assert(d.take(0) =~= Seq::<char>::empty());
    while i < n
        invariant
            n == s@.len(),
            lo <= i <= n,
            d == s@.skip(lo as int),
            c == s@.skip(from as int),
            c.len() > 0,
            d == (if c[0] == '+' { c.drop_first() } else { c }),
            all_digits(d.take(i - lo)),
            acc == digits_value(d.take(i - lo)),
            acc <= u32::MAX,
            k == leading_digits(d),
            k <= d.len(),
            all_digits(d.take(k)),
            k < d.len() ==> !is_digit(d[k]),
        decreases n - i,
    {
        let ch = s.get_char(i);
        assert(ch == d[i - lo]);
        if !('0' <= ch && ch <= '9') {
            proof {
                if k > i - lo {
                    assert(d.take(k)[i - lo] == d[i - lo]);
                }
                if k < i - lo {
                    assert(d.take(i - lo)[k] == d[k]);
                }
                assert(k == i - lo);
                assert(d.take(k) =~= d.take(i - lo));
            }
            return Err(IntTextError::InvalidDigit);
        }
        let dv: u64 = (ch as u32 - '0' as u32) as u64;
        assert(dv == digit_value(ch));
        assert(d.take(i - lo + 1).drop_last() =~= d.take(i - lo));
        assert(d.take(i - lo + 1).last() == ch);
        acc = acc * 10 + dv;
        i += 1;
        assert(all_digits(d.take(i - lo))) by {
            assert forall|j: int| 0 <= j < d.take(i - lo).len() implies is_digit(#[trigger] d.take(i - lo)[j]) by {
                if j < i - 1 - lo {
                    assert(d.take(i - lo)[j] == d.take(i - 1 - lo)[j]);
                }
            }
        }
        if acc > 4294967295u64 {
            proof {
                if k < i - lo {
                    assert(d.take(i - lo)[k] == d[k]);
                }
                assert(d.take(k).take(i - lo) =~= d.take(i - lo));
                lemma_digits_value_grows(d.take(k), i - lo);
            }
            return Err(IntTextError::TooLarge);
        }
    }
    proof {
        if k < d.len() {
            assert(d.take(i - lo)[k] == d[k]);
        }
        assert(d.take(i - lo) =~= d);
        assert(d.take(k) =~= d);
    }
    if lo == n {
        return Err(IntTextError::InvalidDigit);
    }
    Ok(acc as u32)
}

/// The texts of a list of strings.
pub open spec fn text_views(v: Seq<String>) -> Seq<Seq<char>> {
    v.map_values(|p: String| p@)
}

/// The pieces of `s` between commas, as `str::split(',')` gives them.
fn comma_pieces(s: &str) -> (r: Vec<String>)
    ensures
        text_views(r@) == split_commas(s@),
{
    let ghost sq = s@;
    let n = s.unicode_len();
    let mut out: Vec<String> = Vec::new();
    let mut start: usize = 0;
    let mut i: usize = 0;
    while i < n
        invariant
            sq == s@,
            n == sq.len(),
            start <= i <= n,
            text_views(out@) + split_from(sq, start as int, i as int) == split_commas(sq),
        decreases n - i,
    {
        if s.get_char(i) == ',' {
            let ghost piece = sq.subrange(start as int, i as int);
            let ghost rest = split_from(sq, i + 1, i + 1);
            assert(split_from(sq, start as int, i as int) == seq![piece] + rest);
            let ghost before = text_views(out@);
            let p = String::from_str(s.substring_char(start, i));
            out.push(p);
            assert(text_views(out@) =~= before + seq![piece]);
            assert(text_views(out@) + rest =~= before + (seq![piece] + rest));
            start = i + 1;
        } else {
            assert(split_from(sq, start as int, i as int) == split_from(sq, start as int, i + 1));
        }
        i += 1;
    }
    let ghost piece = sq.subrange(start as int, n as int);
    assert(split_from(sq, start as int, n as int) == seq![piece]);
    let ghost before = text_views(out@);
    let p = String::from_str(s.substring_char(start, n));
    out.push(p);
    assert(text_views(out@) =~= before + seq![piece]);
    out
}

/// What follows the name at `name_len` in `t`, once the ':' and then the
/// '=' that lead it are stripped: the position where it starts.
fn after_marks_at(t: &str, name_len: usize) -> (r: usize)
    requires
        name_len <= t@.len(),
    ensures
        r <= t@.len(),
        after_marks(t@.skip(name_len as int)) == t@.skip(r as int),
{
    let a = skip_run(t, name_len, ':');
    skip_run(t, a, '=')
}

/// The position in `s` past the digits that stand from `from` on.
fn digits_end(s: &str, from: usize) -> (r: usize)
    requires
        from <= s@.len(),
    ensures
        from <= r <= s@.len(),
        r - from == leading_digits(s@.skip(from as int)),
{
    let n = s.unicode_len();
    let mut i = from;
    while i < n && '0' <= s.get_char(i) && s.get_char(i) <= '9'
        invariant
            n == s@.len(),
            from <= i <= n,
            leading_digits(s@.skip(from as int)) == (i - from) + leading_digits(s@.skip(i as int)),
        decreases n - i,
    {
        assert(s@.skip(i as int).drop_first() =~= s@.skip(i + 1));
        i += 1;
    }
    i
}

proof fn lemma_mantissa(s: Seq<char>, a: int, i: int, dot: bool, j: int)
    requires
        0 <= a <= i <= s.len(),
        i - a == leading_digits(s.skip(a)),
        dot == (i < s.len() && s[i] == '.'),
        dot ==> i + 1 <= j <= s.len() && j - (i + 1) == leading_digits(s.skip(i + 1)),
        !dot ==> j == i,
    ensures
        float_number(s.skip(a)) == ((i > a || j > i + 1) && (j == s.len()
            || (s[j] == 'e' && signed_digits(s.skip(j).drop_first())))),
{
    let u = s.skip(a);
    let li = leading_digits(u) as int;
    if li < u.len() {
        assert(u[li] == s[i]);
    }
    if dot {
        assert(u.skip(li + 1) =~= s.skip(i + 1));
    }
    assert(u.skip(j - a) =~= s.skip(j));
}

proof fn lemma_exponent(s: Seq<char>, j: int, k2: int, e: int)
    requires
        0 <= j < s.len(),
        k2 == (if j + 1 < s.len() && (s[j + 1] == '+' || s[j + 1] == '-') { j + 2 } else { j + 1 }),
        k2 <= e <= s.len(),
        e - k2 == leading_digits(s.skip(k2)),
    ensures
        signed_digits(s.skip(j).drop_first()) == (e > k2 && e == s.len()),
{
    let y = s.skip(j).drop_first();
    assert(y =~= s.skip(j + 1));
    let d = if y.len() > 0 && (y[0] == '+' || y[0] == '-') { y.drop_first() } else { y };
    assert(d =~= s.skip(k2));
    lemma_leading_digits(d);
    if e == s.len() {
        assert(d.take(d.len() as int) =~= d);
    } else {
        assert(d[e - k2] == s[e]);
    }
}

/// Why `s` is no number that `f32::from_str` accepts, or `None`.
fn float_error(s: &str) -> (r: Option<FloatTextError>)
    ensures
        r == float_text_error(s@),
{
    proof {
        reveal_strlit("inf");
        reveal_strlit("infinity");
        reveal_strlit("nan");
        assert("inf"@ =~= seq!['i', 'n', 'f']);
        assert("infinity"@ =~= seq!['i', 'n', 'f', 'i', 'n', 'i', 't', 'y']);
        assert("nan"@ =~= seq!['n', 'a', 'n']);
    }
    let n = s.unicode_len();
    if n == 0 {
        return Some(FloatTextError::Empty);
    }
    let c0 = s.get_char(0);
    let a: usize = if c0 == '+' || c0 == '-' { 1 } else { 0 };
    let ghost u = s@.skip(a as int);
    assert(u =~= (if s@[0] == '+' || s@[0] == '-' { s@.drop_first() } else { s@ }));
    let rest = s.substring_char(a, n);
    assert(rest@ =~= u);
    if same_text(rest, "inf") || same_text(rest, "infinity") || same_text(rest, "nan") {
        return None;
    }
    let i = digits_end(s, a);
    let dot = i < n && s.get_char(i) == '.';
    let j = if dot { digits_end(s, i + 1) } else { i };
    proof {
        lemma_mantissa(s@, a as int, i as int, dot, j as int);
    }
    if i == a && j <= i + 1 {
        return Some(FloatTextError::Invalid);
    }
    if j == n {
        return None;
    }
    if s.get_char(j) != 'e' {
        return Some(FloatTextError::Invalid);
    }
    let k = j + 1;
    let k2 = if k < n && (s.get_char(k) == '+' || s.get_char(k) == '-') { k + 1 } else { k };
    let e = digits_end(s, k2);
    proof {
        lemma_exponent(s@, j as int, k2 as int, e as int);
    }
    if e > k2 && e == n {
        None
    } else {
        Some(FloatTextError::Invalid)
    }
}

/// What Rust's `ParseIntError` says of each reason a text is no integer.
pub open spec fn int_error_text(e: IntTextError) -> Seq<char> {
    match e {
        IntTextError::Empty => "cannot parse integer from empty string"@,
        IntTextError::InvalidDigit => "invalid digit found in string"@,
        IntTextError::TooLarge => "number too large to fit in target type"@,
    }
}

/// What Rust's `ParseFloatError` says of each reason a text is no number.
pub open spec fn float_error_text(e: FloatTextError) -> Seq<char> {
    match e {
        FloatTextError::Empty => "cannot parse float from empty string"@,
        FloatTextError::Invalid => "invalid float literal"@,
    }
}

/// The message that says why a name is no tax rule.
pub open spec fn error_message(e: TaxModeErrorView) -> Seq<char> {
    match e {
        TaxModeErrorView::Cap(k) => "capped cap: "@ + int_error_text(k),
        TaxModeErrorView::Shift(k) => "shift amount: "@ + int_error_text(k),
        TaxModeErrorView::ShiftTooLarge => "shift must be < 5"@,
        TaxModeErrorView::PerGapCount(n) => "pergap needs 6 comma-separated coefficients, got "@ + decimal(n as int),
        TaxModeErrorView::PerGapCoeff(i, k) => "pergap["@ + decimal(i as int) + "]: "@ + float_error_text(k),
        TaxModeErrorView::Unknown(t) => "unknown tax mode '"@ + t
            + "' (expected: none | flat | original | capped:N | shift:N | quadratic | pergap:c0,c1,..,c5)"@,
    }
}

fn int_error_str(e: IntTextError) -> (r: &'static str)
    ensures
        r@ == int_error_text(e),
{
    match e {
        IntTextError::Empty => "cannot parse integer from empty string",
        IntTextError::InvalidDigit => "invalid digit found in string",
        IntTextError::TooLarge => "number too large to fit in target type",
    }
}

fn float_error_str(e: FloatTextError) -> (r: &'static str)
    ensures
        r@ == float_error_text(e),
{
    match e {
        FloatTextError::Empty => "cannot parse float from empty string",
        FloatTextError::Invalid => "invalid float literal",
    }
}

impl TaxModeError {
    /// Says why the name is no tax rule, e.g. "shift must be < 5" or
    /// "pergap needs 6 comma-separated coefficients, got 2".
    pub fn message(&self) -> (r: String)
        ensures
            r@ == error_message(self@),
    {
        match self {
            TaxModeError::Cap(k) => {
                let mut out = String::from_str("capped cap: ");
                out.append(int_error_str(*k));
                out
            },
            TaxModeError::Shift(k) => {
                let mut out = String::from_str("shift amount: ");
                out.append(int_error_str(*k));
                out
            },
            TaxModeError::ShiftTooLarge => String::from_str("shift must be < 5"),
            TaxModeError::PerGapCount(n) => {
                let mut out = String::from_str("pergap needs 6 comma-separated coefficients, got ");
                push_decimal_u64(&mut out, *n as u64);
                assert(decimal(*n as int) == decimal_nat(*n as nat));
                out
            },
            TaxModeError::PerGapCoeff(i, k) => {
                let mut out = String::from_str("pergap[");
                push_decimal_u64(&mut out, *i as u64);
                assert(decimal(*i as int) == decimal_nat(*i as nat));
                out.append("]: ");
                out.append(float_error_str(*k));
                out
            },
            TaxModeError::Unknown(t) => {
                let mut out = String::from_str("unknown tax mode '");
                out.append(t.as_str());
                out.append("' (expected: none | flat | original | capped:N | shift:N | quadratic | pergap:c0,c1,..,c5)");
                out
            },
        }
    }
}

impl TaxMode {
    /// Reads a tax rule from its name, whatever the case of its ASCII
    /// letters: `none`, `off` or `0`; `flat`; `original`, `orig` or
    /// `gap5`; `quadratic`, `quad` or `sqrt`; `capped` with a cap (2 when
    /// none is given, and at least 1); `shift` with an amount below 5 (1
    /// when none is given); `pergap` with six comma-separated coefficients.
    /// A cap, amount or coefficient list may follow a ':' or '=', as in
    /// `capped:3` or `shift=2`.
    pub fn from_name(name: &str) -> (r: Result<TaxMode, TaxModeError>)
        ensures
            outcome_view(r) == tax_outcome(ascii_lowercase(name@)),
    {
        let low = lowercase_ascii(name);
        let ghost t = low@;
        proof {
            reveal_strlit("none");
            reveal_strlit("off");
            reveal_strlit("0");
            reveal_strlit("flat");
            reveal_strlit("original");
            reveal_strlit("orig");
            reveal_strlit("gap5");
            reveal_strlit("quadratic");
            reveal_strlit("quad");
            reveal_strlit("sqrt");
            reveal_strlit("capped");
            reveal_strlit("shift");
            reveal_strlit("pergap");
            assert("none"@ =~= seq!['n', 'o', 'n', 'e']);
            assert("off"@ =~= seq!['o', 'f', 'f']);
            assert("0"@ =~= seq!['0']);
            assert("flat"@ =~= seq!['f', 'l', 'a', 't']);
            assert("original"@ =~= seq!['o', 'r', 'i', 'g', 'i', 'n', 'a', 'l']);
            assert("orig"@ =~= seq!['o', 'r', 'i', 'g']);
            assert("gap5"@ =~= seq!['g', 'a', 'p', '5']);
            assert("quadratic"@ =~= seq!['q', 'u', 'a', 'd', 'r', 'a', 't', 'i', 'c']);
            assert("quad"@ =~= seq!['q', 'u', 'a', 'd']);
            assert("sqrt"@ =~= seq!['s', 'q', 'r', 't']);
            assert("capped"@ =~= word_capped());
            assert("shift"@ =~= word_shift());
            assert("pergap"@ =~= word_pergap());
        }
        let r = {
            let s = low.as_str();
            if same_text(s, "none") || same_text(s, "off") || same_text(s, "0") {
                Some(Ok(TaxMode::Off))
            } else if same_text(s, "flat") {
                Some(Ok(TaxMode::Flat))
            } else if same_text(s, "original") || same_text(s, "orig") || same_text(s, "gap5") {
                Some(Ok(TaxMode::Original))
            } else if same_text(s, "quadratic") || same_text(s, "quad") || same_text(s, "sqrt") {
                Some(Ok(TaxMode::Quadratic))
            } else if begins_with(s, "capped") {
                let b = after_marks_at(s, 6);
                if b == s.unicode_len() {
                    Some(Ok(TaxMode::Capped { cap: 2 }))
                } else {
                    match read_u32(s, b) {
                        Ok(v) => Some(Ok(TaxMode::Capped { cap: if v >= 1 { v } else { 1 } })),
                        Err(e) => Some(Err(TaxModeError::Cap(e))),
                    }
                }
            } else if begins_with(s, "shift") {
                let b = after_marks_at(s, 5);
                if b == s.unicode_len() {
                    Some(Ok(TaxMode::Shift { shift: 1 }))
                } else {
                    match read_u32(s, b) {
                        Ok(v) => if v >= 5 {
                            Some(Err(TaxModeError::ShiftTooLarge))
                        } else {
                            Some(Ok(TaxMode::Shift { shift: v }))
                        },
                        Err(e) => Some(Err(TaxModeError::Shift(e))),
                    }
                }
            } else if begins_with(s, "pergap") {
                let b = after_marks_at(s, 6);
                let pieces = comma_pieces(s.substring_char(b, s.unicode_len()));
                assert(s@.subrange(b as int, s@.len() as int) =~= s@.skip(b as int));
                if pieces.len() != 6 {
                    Some(Err(TaxModeError::PerGapCount(pieces.len())))
                } else {
                    let ghost parts = text_views(pieces@);
                    let mut bad: Option<(usize, FloatTextError)> = None;
                    let mut i: usize = 0;
                    while i < 6
                        invariant
                            pieces@.len() == 6,
                            parts == text_views(pieces@),
                            i <= 6,
                            bad is None ==> first_bad_number(parts, 0) == first_bad_number(parts, i as nat),
                            bad matches Some((q, e)) ==> first_bad_number(parts, 0) == Some((q as nat, e)),
                        decreases 6 - i,
                    {
                        if bad.is_none() {
                            match float_error(pieces[i].as_str()) {
                                Some(e) => {
                                    bad = Some((i, e));
                                },
                                None => {},
                            }
                        }
                        i += 1;
                    }
                    match bad {
                        Some((q, e)) => Some(Err(TaxModeError::PerGapCoeff(q, e))),
                        None => Some(Ok(TaxMode::PerGap { coeffs: pieces })),
                    }
                }
            } else {
                None
            }
        };
        match r {
            Some(out) => out,
            None => Err(TaxModeError::Unknown(low)),
        }
    }

    /// Reads a tax rule from its name as `from_name` does, giving the
    /// message of the error where the name is no rule.
    pub fn from_text(name: &str) -> (r: Result<TaxMode, String>)
        ensures
            match tax_outcome(ascii_lowercase(name@)) {
                Ok(v) => r matches Ok(m) && m@ == v,
                Err(ev) => r matches Err(msg) && msg@ == error_message(ev),
            },
    {
        match TaxMode::from_name(name) {
            Ok(m) => Ok(m),
            Err(e) => Err(e.message()),
        }
    }
}

impl std::str::FromStr for TaxMode {
    type Err = String;

    fn from_str(s: &str) -> Result<TaxMode, String> {
        TaxMode::from_text(s)
    }
}

} // verus!
