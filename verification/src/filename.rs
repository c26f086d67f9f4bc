//! Blueprint file names: `preflop_{players}p_{stack}bb.bin`.

use vstd::prelude::*;
use crate::text::{unsigned_text, signed_text, parse_usize_at, parse_i32_at};

verus! {

/// No character of `s` is '_'.
pub open spec fn no_underscore(s: Seq<char>) -> bool {
    forall|i: int| 0 <= i < s.len() ==> s[i] != '_'
}

/// `preflop_{a}p_{b}bb.bin`.
pub open spec fn blueprint_name(a: Seq<char>, b: Seq<char>) -> Seq<char> {
    "preflop_"@ + a + "p_"@ + b + "bb.bin"@
}

/// `name` is `preflop_{a}p_{b}bb.bin` with no '_' inside the two fields.
pub open spec fn names_fields(name: Seq<char>, a: Seq<char>, b: Seq<char>) -> bool {
    &&& no_underscore(a)
    &&& no_underscore(b)
    &&& name == blueprint_name(a, b)
}

/// The two fields of a blueprint file name, when it is one.
pub open spec fn blueprint_fields(name: Seq<char>) -> Option<(Seq<char>, Seq<char>)> {
    if exists|a: Seq<char>, b: Seq<char>| names_fields(name, a, b) {
        Some(choose|a: Seq<char>, b: Seq<char>| names_fields(name, a, b))
    } else {
        None
    }
}

/// `(players, stack in big blinds)` named by a blueprint file name: both
/// fields read as integers, with 2 to 6 players and a positive stack.
pub open spec fn blueprint_filename_value(name: Seq<char>) -> Option<(usize, i32)> {
    match blueprint_fields(name) {
        Some((a, b)) => match (unsigned_text(a), signed_text(b)) {
            (Some(np), Some(sbb)) => if 2 <= np <= 6 && 0 < sbb <= i32::MAX {
                Some((np as usize, sbb as i32))
            } else {
                None
            },
            _ => None,
        },
        None => None,
    }
}

/// What a file name of this shape shows at fixed places.
pub proof fn lemma_name_shape(name: Seq<char>, a: Seq<char>, b: Seq<char>)
    requires
        names_fields(name, a, b),
    ensures
        name.len() == 16 + a.len() as int + b.len() as int,
        name.subrange(0, 8) == "preflop_"@,
        name.subrange(name.len() - 4, name.len() as int) == ".bin"@,
        name.subrange(name.len() - 6, name.len() - 4) == "bb"@,
        name[8 + a.len() as int] == 'p',
        name[9 + a.len() as int] == '_',
        forall|j: int| 8 <= j < name.len() - 4 && j != 9 + a.len() as int ==> name[j] != '_',
        name.subrange(8, 8 + a.len() as int) == a,
        name.subrange(10 + a.len() as int, name.len() - 6) == b,
{
    reveal_strlit("preflop_");
    reveal_strlit("p_");
    reveal_strlit("bb.bin");
    reveal_strlit(".bin");
    reveal_strlit("bb");
    let la = a.len() as int;
    let lb = b.len() as int;
    assert(name.subrange(0, 8) =~= "preflop_"@);
    assert(name.subrange(name.len() - 4, name.len() as int) =~= ".bin"@);
    assert(name.subrange(name.len() - 6, name.len() - 4) =~= "bb"@);
    assert(name.subrange(8, 8 + la) =~= a);
    assert(name.subrange(10 + la, name.len() - 6) =~= b);
    assert forall|j: int| 8 <= j < name.len() - 4 && j != 9 + la implies name[j] != '_' by {
        if j < 8 + la {
            assert(name[j] == a[j - 8]);
        } else if j == 8 + la {
        } else if j < 10 + la + lb {
            assert(name[j] == b[j - 10 - la]);
        } else {
        }
    }
}

/// A name with the prefix, the suffix, a single '_' at `k` in between, 'p'
/// before it and "bb" before the suffix has the fields around that '_'.
proof fn lemma_fields_found(s: Seq<char>, k: int)
    requires
        s.len() >= 16,
        s.subrange(0, 8) == "preflop_"@,
        s.subrange(s.len() - 4, s.len() as int) == ".bin"@,
        s.subrange(s.len() - 6, s.len() - 4) == "bb"@,
        9 <= k,
        k + 1 <= s.len() - 6,
        s[k] == '_',
        s[k - 1] == 'p',
        forall|j: int| 8 <= j < s.len() - 4 && j != k ==> s[j] != '_',
    ensures
        blueprint_fields(s) == Some((s.subrange(8, k - 1), s.subrange(k + 1, s.len() - 6))),
{
    let n = s.len() as int;
    let a = s.subrange(8, k - 1);
    let b = s.subrange(k + 1, n - 6);
    assert(no_underscore(a)) by {
        assert forall|i: int| 0 <= i < a.len() implies a[i] != '_' by {
            assert(a[i] == s[8 + i]);
        }
    }
    assert(no_underscore(b)) by {
        assert forall|i: int| 0 <= i < b.len() implies b[i] != '_' by {
            assert(b[i] == s[k + 1 + i]);
        }
    }
    reveal_strlit("preflop_");
    reveal_strlit(".bin");
    reveal_strlit("bb");
    reveal_strlit("p_");
    reveal_strlit("bb.bin");
    assert(s =~= blueprint_name(a, b)) by {
        assert forall|j: int| 0 <= j < s.len() implies s[j] == blueprint_name(a, b)[j] by {
            if j < 8 {
                assert(s[j] == s.subrange(0, 8)[j]);
            } else if j >= n - 4 {
                assert(s[j] == s.subrange(n - 4, n)[j - (n - 4)]);
            } else if j >= n - 6 {
                assert(s[j] == s.subrange(n - 6, n - 4)[j - (n - 6)]);
            }
        }
    }
    assert(names_fields(s, a, b));
    assert forall|a2: Seq<char>, b2: Seq<char>| names_fields(s, a2, b2) implies a2 == a && b2 == b by {
        lemma_name_shape(s, a2, b2);
        assert(k == 9 + a2.len() as int);
    }
    let (ca, cb) = choose|a2: Seq<char>, b2: Seq<char>| names_fields(s, a2, b2);
    assert(ca == a && cb == b);
}

fn chars_of(s: &str) -> (r: Vec<char>)
    ensures
        r@ == s@,
{
    let n = s.unicode_len();
    let mut v: Vec<char> = Vec::new();
    let mut i: usize = 0;
    while i < n
        invariant
            n == s@.len(),
            i <= n,
            v@ == s@.take(i as int),
        decreases n - i,
    {
        v.push(s.get_char(i));
        i += 1;
        assert(v@ =~= s@.take(i as int));
    }
    assert(v@ =~= s@);
    v
}

/// `s[pos..]` starts with `lit`.
fn has_at(s: &[char], pos: usize, lit: &str) -> (r: bool)
    ensures
        r == (pos + lit@.len() <= s@.len() && s@.subrange(pos as int, pos + lit@.len()) == lit@),
{
    let n = lit.unicode_len();
    if pos > s.len() || n > s.len() - pos {
        return false;
    }
    let mut i: usize = 0;
    while i < n
        invariant
            n == lit@.len(),
            pos + n <= s.len(),
            i <= n,
            s@.subrange(pos as int, pos + i) == lit@.take(i as int),
        decreases n - i,
    {
        if s[pos + i] != lit.get_char(i) {
            assert(s@.subrange(pos as int, pos + n)[i as int] != lit@[i as int]);
            return false;
        }
        i += 1;
        assert(s@.subrange(pos as int, pos + i) =~= lit@.take(i as int));
    }
    assert(lit@.take(n as int) =~= lit@);
    true
}

/// Reads `(players, stack in big blinds)` from a blueprint file name of the
/// form `preflop_{players}p_{stack}bb.bin`, e.g. `preflop_6p_100bb.bin`
/// gives `(6, 100)`. `None` for any other name, or when the player count is
/// outside 2..=6 or the stack is not positive.
pub fn parse_blueprint_filename(name: &str) -> (r: Option<(usize, i32)>)
    ensures
        r == blueprint_filename_value(name@),
{
    proof {
        reveal_strlit("preflop_");
        reveal_strlit(".bin");
        reveal_strlit("bb");
    }
    let chars = chars_of(name);
    let n = chars.len();
    let ghost s = name@;
    if n < 16 || !has_at(chars.as_slice(), 0, "preflop_") || !has_at(chars.as_slice(), n - 4, ".bin") {
        proof {
            if exists|a: Seq<char>, b: Seq<char>| names_fields(s, a, b) {
                let (a, b) = choose|a: Seq<char>, b: Seq<char>| names_fields(s, a, b);
                lemma_name_shape(s, a, b);
            }
        }
        return None;
    }
    // The first '_' after the prefix.
    let mut k: usize = 8;
    while k < n - 4 && chars[k] != '_'
        invariant
            16 <= n == s.len(),
            chars@ == s,
            8 <= k <= n - 4,
            forall|j: int| 8 <= j < k ==> s[j] != '_',
        decreases n - 4 - k,
    {
        k += 1;
    }
    if k == n - 4 {
        proof {
            if exists|a: Seq<char>, b: Seq<char>| names_fields(s, a, b) {
                let (a, b) = choose|a: Seq<char>, b: Seq<char>| names_fields(s, a, b);
                lemma_name_shape(s, a, b);
                assert(s[9 + a.len() as int] == '_');
            }
        }
        return None;
    }
    // No other '_' before the suffix.
    let mut m: usize = k + 1;
    while m < n - 4 && chars[m] != '_'
        invariant
            16 <= n == s.len(),
            chars@ == s,
            8 <= k < m <= n - 4,
            s[k as int] == '_',
            forall|j: int| 8 <= j < k ==> s[j] != '_',
            forall|j: int| k < j < m ==> s[j] != '_',
        decreases n - 4 - m,
    {
        m += 1;
    }
    let ok = m == n - 4 && k >= 9 && chars[k - 1] == 'p' && k + 1 <= n - 6 && has_at(chars.as_slice(), n - 6, "bb");
    if !ok {
        proof {
            if exists|a: Seq<char>, b: Seq<char>| names_fields(s, a, b) {
                let (a, b) = choose|a: Seq<char>, b: Seq<char>| names_fields(s, a, b);
                lemma_name_shape(s, a, b);
                assert(k == 9 + a.len() as int);
                if m < n - 4 {
                    assert(s[m as int] == '_');
                }
            }
        }
        return None;
    }
    proof { lemma_fields_found(s, k as int); }
    let np = parse_usize_at(chars.as_slice(), 8, k - 1);
    let sbb = parse_i32_at(chars.as_slice(), k + 1, n - 6);
    match (np, sbb) {
        (Some(np), Some(sbb)) => {
            if 2 <= np && np <= 6 && sbb > 0 {
                Some((np, sbb))
            } else {
                None
            }
        },
        _ => None,
    }
}

} // verus!
