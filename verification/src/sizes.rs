//! Bet-size lists given as comma-separated pot percentages, e.g. "33,75,150",
//! read as fractions of the pot: 1/3, 3/4 and 3/2.

use vstd::prelude::*;
use crate::text::{signed_text, parse_i32_at};
use crate::fraction::{gcd_nat, magnitude, simplify_frac, trunc_div, wrap_i32};

verus! {

/// A bet size as a fraction of the pot.
#[derive(Debug, Clone, Copy, PartialEq, Eq, Structural)]
pub struct PotFraction {
    pub num: i32,
    pub den: i32,
}

/// `c` is white space as Rust's `char::is_whitespace` defines it (the
/// Unicode `White_Space` property).
pub open spec fn is_space(c: char) -> bool {
    let u = c as u32;
    (0x9 <= u <= 0xD) || u == 0x20 || u == 0x85 || u == 0xA0 || u == 0x1680 || (0x2000 <= u <= 0x200A)
        || u == 0x2028 || u == 0x2029 || u == 0x202F || u == 0x205F || u == 0x3000
}

/// `t` without leading white space.
pub open spec fn trim_start(t: Seq<char>) -> Seq<char>
    decreases t.len(),
{
    if t.len() > 0 && is_space(t[0]) { trim_start(t.drop_first()) } else { t }
}

/// `t` without trailing white space.
pub open spec fn trim_end(t: Seq<char>) -> Seq<char>
    decreases t.len(),
{
    if t.len() > 0 && is_space(t.last()) { trim_end(t.drop_last()) } else { t }
}

/// `t` without leading or trailing white space, as `str::trim` gives it.
pub open spec fn trim(t: Seq<char>) -> Seq<char> {
    trim_end(trim_start(t))
}

/// The pieces of `s` between commas, scanning from `i` with the current
/// piece starting at `start`.
pub open spec fn split_from(s: Seq<char>, start: int, i: int) -> Seq<Seq<char>>
    decreases s.len() - i,
{
    if i >= s.len() {
        seq![s.subrange(start, s.len() as int)]
    } else if s[i] == ',' {
        seq![s.subrange(start, i)] + split_from(s, i + 1, i + 1)
    } else {
        split_from(s, start, i + 1)
    }
}

/// The pieces of `s` between commas, as `str::split(',')` gives them.
pub open spec fn split_commas(s: Seq<char>) -> Seq<Seq<char>> {
    split_from(s, 0, 0)
}

/// The number of thirds of the pot that the percentage `p` rounds, when it
/// is a whole number of thirds rounded to the nearest percent and not a
/// whole percent itself: 33 for one third, 67 for two, 133 for four.
pub open spec fn thirds_of(p: int) -> Option<int> {
    if (3 * p) % 100 == 99 {
        Some((3 * p + 1) / 100)
    } else if (3 * p) % 100 == 1 {
        Some((3 * p - 1) / 100)
    } else {
        None
    }
}

/// The size a piece names: a positive integer percentage `p`, surrounded by
/// any white space. A rounded number of thirds (33, 67, 133, ...) reads as
/// that many thirds of the pot; any other percentage as `p / 100` reduced by
/// the greatest common divisor.
pub open spec fn size_of_piece(t: Seq<char>) -> Option<(int, int)> {
    match signed_text(trim(t)) {
        Some(p) => if 0 < p <= i32::MAX {
            match thirds_of(p) {
                Some(k) => Some((k, 3)),
                None => {
                    let g = wrap_i32(gcd_nat(magnitude(p), 100));
                    Some((trunc_div(p, g), trunc_div(100, g)))
                },
            }
        } else {
            None
        },
        None => None,
    }
}

/// The sizes named by the pieces, skipping those that name none.
pub open spec fn sizes_of_pieces(ts: Seq<Seq<char>>) -> Seq<(int, int)>
    decreases ts.len(),
{
    if ts.len() == 0 {
        Seq::empty()
    } else {
        (match size_of_piece(ts[0]) {
            Some(f) => seq![f],
            None => Seq::empty(),
        }) + sizes_of_pieces(ts.drop_first())
    }
}

/// The fractions of a list of sizes.
pub open spec fn fraction_views(v: Seq<PotFraction>) -> Seq<(int, int)> {
    v.map_values(|f: PotFraction| (f.num as int, f.den as int))
}

fn is_space_char(c: char) -> (r: bool)
    ensures
        r == is_space(c),
{
    let u = c as u32;
    (0x9 <= u && u <= 0xD) || u == 0x20 || u == 0x85 || u == 0xA0 || u == 0x1680 || (0x2000 <= u && u <= 0x200A)
        || u == 0x2028 || u == 0x2029 || u == 0x202F || u == 0x205F || u == 0x3000
}

proof fn lemma_trim_start_skip(t: Seq<char>, k: int)
    requires
        0 <= k <= t.len(),
        forall|j: int| 0 <= j < k ==> is_space(t[j]),
    ensures
        trim_start(t) == trim_start(t.subrange(k, t.len() as int)),
    decreases k,
{
    if k > 0 {
        assert(t.drop_first().subrange(k - 1, t.drop_first().len() as int) =~= t.subrange(k, t.len() as int));
        lemma_trim_start_skip(t.drop_first(), k - 1);
    } else {
        assert(t.subrange(0, t.len() as int) =~= t);
    }
}

proof fn lemma_trim_end_skip(t: Seq<char>, k: int)
    requires
        0 <= k <= t.len(),
        forall|j: int| k <= j < t.len() ==> is_space(t[j]),
    ensures
        trim_end(t) == trim_end(t.subrange(0, k)),
    decreases t.len() - k,
{
    if k < t.len() {
        assert(t.drop_last().subrange(0, k) =~= t.subrange(0, k));
        lemma_trim_end_skip(t.drop_last(), k);
    } else {
        assert(t.subrange(0, k) =~= t);
    }
}

/// The size named by `s[lo..hi]`.
fn size_at(s: &[char], lo: usize, hi: usize) -> (r: Option<PotFraction>)
    requires
        lo <= hi <= s@.len(),
    ensures
        match size_of_piece(s@.subrange(lo as int, hi as int)) {
            Some((n, d)) => r matches Some(f) && f.num as int == n && f.den as int == d,
            None => r is None,
        },
{
    let ghost t = s@.subrange(lo as int, hi as int);
    let mut a: usize = lo;
    while a < hi && is_space_char(s[a])
        invariant
            lo <= a <= hi <= s@.len(),
            t == s@.subrange(lo as int, hi as int),
            forall|j: int| lo <= j < a ==> is_space(s@[j]),
        decreases hi - a,
    {
        a += 1;
    }
    proof {
        lemma_trim_start_skip(t, a - lo);
        assert(t.subrange(a - lo, t.len() as int) =~= s@.subrange(a as int, hi as int));
    }
    let ghost u = s@.subrange(a as int, hi as int);
    assert(a == hi || !is_space(u[0]));
    assert(trim_start(t) == u);
    let mut b: usize = hi;
    while b > a && is_space_char(s[b - 1])
        invariant
            a <= b <= hi <= s@.len(),
            u == s@.subrange(a as int, hi as int),
            forall|j: int| b <= j < hi ==> is_space(s@[j]),
        decreases b,
    {
        b -= 1;
    }
    proof {
        lemma_trim_end_skip(u, b - a);
        assert(u.subrange(0, b - a) =~= s@.subrange(a as int, b as int));
    }
    assert(trim(t) == s@.subrange(a as int, b as int));
    match parse_i32_at(s, a, b) {
        Some(p) => {
            if p > 0 {
                let t: i64 = 3 * (p as i64);
                if t % 100 == 99 {
                    Some(PotFraction { num: ((t + 1) / 100) as i32, den: 3 })
                } else if t % 100 == 1 {
                    Some(PotFraction { num: ((t - 1) / 100) as i32, den: 3 })
                } else {
                    let (n, d) = simplify_frac(p, 100);
                    Some(PotFraction { num: n, den: d })
                }
            } else {
                None
            }
        },
        None => None,
    }
}

/// Reads a list of pot percentages separated by commas, e.g. "33,75,150"
/// gives 1/3, 3/4 and 3/2: each piece, with surrounding white space removed,
/// must be a positive integer, read as that many hundredths of the pot in
/// lowest terms, except that a number of thirds rounded to the percent (33,
/// 67, 133, ...) reads as those thirds; other pieces are skipped. `None` or an empty text gives no
/// sizes.
pub fn parse_size_list(s: Option<&str>) -> (r: Vec<PotFraction>)
    ensures
        fraction_views(r@) == match s {
            Some(t) => sizes_of_pieces(split_commas(t@)),
            None => Seq::empty(),
        },
{
    let text = match s {
        Some(t) => t,
        None => {
            assert(fraction_views(Seq::<PotFraction>::empty()) =~= Seq::<(int, int)>::empty());
            return Vec::new();
        },
    };
    let n = text.unicode_len();
    let mut chars: Vec<char> = Vec::new();
    let mut k: usize = 0;
    while k < n
        invariant
            n == text@.len(),
            k <= n,
            chars@ == text@.take(k as int),
        decreases n - k,
    {
        chars.push(text.get_char(k));
        k += 1;
        assert(chars@ =~= text@.take(k as int));
    }
    assert(chars@ =~= text@);
    let ghost sq = text@;
    let mut out: Vec<PotFraction> = Vec::new();
    let mut start: usize = 0;
    let mut i: usize = 0;
    while i < n
        invariant
            chars@ == sq,
            n == sq.len(),
            start <= i <= n,
            fraction_views(out@) + sizes_of_pieces(split_from(sq, start as int, i as int))
                == sizes_of_pieces(split_commas(sq)),
        decreases n - i,
    {
        if chars[i] == ',' {
            let ghost piece = sq.subrange(start as int, i as int);
            let ghost rest = split_from(sq, i + 1, i + 1);
            let ghost opt = match size_of_piece(piece) {
                Some(f) => seq![f],
                None => Seq::<(int, int)>::empty(),
            };
            assert(split_from(sq, start as int, i as int) == seq![piece] + rest);
            assert((seq![piece] + rest).drop_first() =~= rest);
            assert((seq![piece] + rest)[0] == piece);
            assert(sizes_of_pieces(seq![piece] + rest) == opt + sizes_of_pieces(rest));
            let ghost before = fraction_views(out@);
            match size_at(chars.as_slice(), start, i) {
                Some(f) => {
                    out.push(f);
                    assert(fraction_views(out@) =~= before + seq![(f.num as int, f.den as int)]);
                },
                None => {},
            }
            assert(fraction_views(out@) =~= before + opt);
            assert(fraction_views(out@) + sizes_of_pieces(rest) =~= before + (opt + sizes_of_pieces(rest)));
            start = i + 1;
        } else {
            assert(split_from(sq, start as int, i as int) == split_from(sq, start as int, i + 1));
        }
        i += 1;
    }
    let ghost piece = sq.subrange(start as int, n as int);
    let ghost opt = match size_of_piece(piece) {
        Some(f) => seq![f],
        None => Seq::<(int, int)>::empty(),
    };
    assert(split_from(sq, start as int, n as int) == seq![piece]);
    assert(seq![piece].drop_first() =~= Seq::<Seq<char>>::empty());
    assert(seq![piece][0] == piece);
    assert(sizes_of_pieces(Seq::<Seq<char>>::empty()) =~= Seq::<(int, int)>::empty());
    assert(sizes_of_pieces(seq![piece]) =~= opt + sizes_of_pieces(Seq::<Seq<char>>::empty()));
    assert(sizes_of_pieces(seq![piece]) =~= opt);
    let ghost before = fraction_views(out@);
    match size_at(chars.as_slice(), start, n) {
        Some(f) => {
            out.push(f);
            assert(fraction_views(out@) =~= before + seq![(f.num as int, f.den as int)]);
        },
        None => {},
    }
    assert(fraction_views(out@) =~= before + opt);
    out
}

} // verus!
