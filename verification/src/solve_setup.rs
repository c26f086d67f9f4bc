//! Reading the set-up of a postflop solve from its command-line and batch
//! inputs: which street a name picks, how bet and raise sizes are laid out
//! per raise depth, which slice of a batch runs, and where each result goes.

use vstd::prelude::*;
use crate::sizes::{PotFraction, fraction_views, sizes_of_pieces, split_commas, parse_size_list};

verus! {

/// A street after the flop has been dealt.
#[derive(Debug, Clone, Copy, PartialEq, Eq, Structural)]
pub enum PostflopStreet {
    Flop,
    Turn,
    River,
}

/// `c` is the lower-case ASCII letter `w`, in either case.
pub open spec fn folds_to(c: char, w: char) -> bool {
    c == w || c as int + 32 == w as int
}

/// `s` is the word `w` of lower-case ASCII letters, letters in either case.
/// For the words named here this is `s.to_lowercase() == w`: no character
/// but an ASCII letter lowercases to one of their letters.
pub open spec fn names_word(s: Seq<char>, w: Seq<char>) -> bool {
    s.len() == w.len() && forall|i: int| 0 <= i < s.len() ==> folds_to(s[i], w[i])
}

pub open spec fn flop_word() -> Seq<char> {
    seq!['f', 'l', 'o', 'p']
}

pub open spec fn turn_word() -> Seq<char> {
    seq!['t', 'u', 'r', 'n']
}

pub open spec fn river_word() -> Seq<char> {
    seq!['r', 'i', 'v', 'e', 'r']
}

/// The street a name picks, whatever the case of its letters.
pub open spec fn street_named(s: Seq<char>) -> Option<PostflopStreet> {
    if names_word(s, flop_word()) {
        Some(PostflopStreet::Flop)
    } else if names_word(s, turn_word()) {
        Some(PostflopStreet::Turn)
    } else if names_word(s, river_word()) {
        Some(PostflopStreet::River)
    } else {
        None
    }
}

/// `s` is `w`, up to the case of ASCII letters; `w` is lower case.
fn names(s: &str, w: &str) -> (r: bool)
    ensures
        r == names_word(s@, w@),
{
    let n = s.unicode_len();
    if n != w.unicode_len() {
        return false;
    }
    let mut i: usize = 0;
    while i < n
        invariant
            n == s@.len(),
            n == w@.len(),
            i <= n,
            forall|j: int| 0 <= j < i ==> folds_to(s@[j], w@[j]),
        decreases n - i,
    {
        let c = s.get_char(i);
        let d = w.get_char(i);
        if !(c == d || (c as u32) + 32 == d as u32) {
            return false;
        }
        i += 1;
    }
    true
}

/// The street named by `name` ("flop", "turn" or "river", in any case), or
/// `None` for any other name.
pub fn street_from_name(name: &str) -> (r: Option<PostflopStreet>)
    ensures
        r == street_named(name@),
{
    proof {
        reveal_strlit("flop");
        reveal_strlit("turn");
        reveal_strlit("river");
        assert("flop"@ =~= flop_word());
        assert("turn"@ =~= turn_word());
        assert("river"@ =~= river_word());
    }
    if names(name, "flop") {
        Some(PostflopStreet::Flop)
    } else if names(name, "turn") {
        Some(PostflopStreet::Turn)
    } else if names(name, "river") {
        Some(PostflopStreet::River)
    } else {
        None
    }
}

/// The street a solve stops at, named by `name`: only the turn and the
/// river can be named; `None` for any other name.
pub fn depth_limit_from_name(name: &str) -> (r: Option<PostflopStreet>)
    ensures
        r == match street_named(name@) {
            Some(PostflopStreet::Turn) => Some(PostflopStreet::Turn),
            Some(PostflopStreet::River) => Some(PostflopStreet::River),
            _ => None,
        },
{
    match street_from_name(name) {
        Some(PostflopStreet::Turn) => Some(PostflopStreet::Turn),
        Some(PostflopStreet::River) => Some(PostflopStreet::River),
        _ => None,
    }
}

impl PostflopStreet {
    /// How many board cards lie on the table on this street.
    pub fn board_cards(&self) -> (r: usize)
        ensures
            r == match *self {
                PostflopStreet::Flop => 3usize,
                PostflopStreet::Turn => 4usize,
                PostflopStreet::River => 5usize,
            },
    {
        match self {
            PostflopStreet::Flop => 3,
            PostflopStreet::Turn => 4,
            PostflopStreet::River => 5,
        }
    }
}

/// The fractions of each list of sizes, one list per raise depth.
pub open spec fn depth_views(d: Seq<Vec<PotFraction>>) -> Seq<Seq<(int, int)>> {
    d.map_values(|v: Vec<PotFraction>| fraction_views(v@))
}

/// The sizes of one street, one list per raise depth: the bet sizes at the
/// first depth and the raise sizes at the second. An empty bet list keeps
/// its place only when raise sizes follow it; empty lists are otherwise
/// left out.
pub open spec fn depth_layout(bets: Seq<(int, int)>, raises: Seq<(int, int)>) -> Seq<Seq<(int, int)>> {
    if bets.len() > 0 {
        if raises.len() > 0 {
            seq![bets, raises]
        } else {
            seq![bets]
        }
    } else if raises.len() > 0 {
        seq![Seq::empty(), raises]
    } else {
        Seq::empty()
    }
}

/// The sizes a street's own option gives where it is given, else the
/// sizes that hold for every street.
pub open spec fn sizes_or(text: Option<&str>, fallback: Seq<(int, int)>) -> Seq<(int, int)> {
    match text {
        Some(t) => sizes_of_pieces(split_commas(t@)),
        None => fallback,
    }
}

fn copy_sizes(v: &Vec<PotFraction>) -> (r: Vec<PotFraction>)
    ensures
        r@ == v@,
{
    let mut out: Vec<PotFraction> = Vec::new();
    let mut i: usize = 0;
    while i < v.len()
        invariant
            i <= v.len(),
            out@ == v@.take(i as int),
        decreases v.len() - i,
    {
        out.push(v[i]);
        i += 1;
        assert(out@ =~= v@.take(i as int));
    }
    assert(out@ =~= v@);
    out
}

/// The sizes of one street, one list per raise depth, from the street's own
/// bet and raise options (comma-separated pot percentages, as
/// `parse_size_list` reads them) where they are given, else from the sizes
/// given for every street.
pub fn street_depths(
    bet_text: Option<&str>,
    raise_text: Option<&str>,
    all_bets: &Vec<PotFraction>,
    all_raises: &Vec<PotFraction>,
) -> (r: Vec<Vec<PotFraction>>)
    ensures
        depth_views(r@) == depth_layout(
            sizes_or(bet_text, fraction_views(all_bets@)),
            sizes_or(raise_text, fraction_views(all_raises@)),
        ),
{
    let bets = match bet_text {
        Some(_) => parse_size_list(bet_text),
        None => copy_sizes(all_bets),
    };
    let raises = match raise_text {
        Some(_) => parse_size_list(raise_text),
        None => copy_sizes(all_raises),
    };
    let ghost b = fraction_views(bets@);
    let ghost q = fraction_views(raises@);
    assert(b == sizes_or(bet_text, fraction_views(all_bets@)));
    assert(q == sizes_or(raise_text, fraction_views(all_raises@)));
    let mut depths: Vec<Vec<PotFraction>> = Vec::new();
    let has_bets = bets.len() > 0;
    let has_raises = raises.len() > 0;
    if has_bets {
        depths.push(bets);
    }
    if has_raises {
        if depths.len() == 0 {
            depths.push(Vec::new());
        }
        depths.push(raises);
    }
    proof {
        let e = Seq::<PotFraction>::empty();
        assert(fraction_views(e) =~= Seq::<(int, int)>::empty());
        assert(depth_views(depths@) =~= depth_layout(b, q));
    }
    depths
}

/// The sizes of one street, one list per raise depth, after the bet sizes
/// and raise sizes of a batch replace those at the first and second depth.
/// An empty list replaces nothing; where raise sizes come and there is no
/// second depth yet, the missing depths are added empty first.
pub open spec fn with_sizes(
    d: Seq<Seq<(int, int)>>,
    bets: Seq<(int, int)>,
    raises: Seq<(int, int)>,
) -> Seq<Seq<(int, int)>> {
    let d1 = if bets.len() > 0 {
        if d.len() == 0 {
            seq![bets]
        } else {
            d.update(0, bets)
        }
    } else {
        d
    };
    if raises.len() > 0 {
        if d1.len() < 2 {
            (d1 + no_sizes((2 - d1.len()) as nat)).update(1, raises)
        } else {
            d1.update(1, raises)
        }
    } else {
        d1
    }
}

/// `n` empty size lists.
pub open spec fn no_sizes(n: nat) -> Seq<Seq<(int, int)>> {
    Seq::new(n, |i: int| Seq::<(int, int)>::empty())
}

/// Puts a batch's bet sizes at the first raise depth of a street and its
/// raise sizes at the second; an empty list leaves its depth as it was.
pub fn apply_street_sizes(
    depths: &mut Vec<Vec<PotFraction>>,
    bets: &Vec<PotFraction>,
    raises: &Vec<PotFraction>,
)
    ensures
        depth_views(final(depths)@) == with_sizes(
            depth_views(old(depths)@),
            fraction_views(bets@),
            fraction_views(raises@),
        ),
{
    let ghost d0 = depth_views(depths@);
    let ghost b = fraction_views(bets@);
    let ghost q = fraction_views(raises@);
    if bets.len() > 0 {
        if depths.len() == 0 {
            depths.push(copy_sizes(bets));
        } else {
            depths.set(0, copy_sizes(bets));
        }
    }
    let ghost d1 = depth_views(depths@);
    assert(d1 =~= (if b.len() > 0 {
        if d0.len() == 0 { seq![b] } else { d0.update(0, b) }
    } else {
        d0
    }));
    if raises.len() > 0 {
        if depths.len() < 2 {
            let ghost k = depths.len();
            assert(d1 + no_sizes(0) =~= d1);
            while depths.len() < 2
                invariant
                    k <= depths.len() <= 2,
                    k < 2,
                    depth_views(depths@) == d1 + no_sizes((depths.len() - k) as nat),
                decreases 2 - depths.len(),
            {
                let ghost before = depths@;
                depths.push(Vec::new());
                proof {
                    let e = Seq::<PotFraction>::empty();
                    assert(fraction_views(e) =~= Seq::<(int, int)>::empty());
                    assert(depth_views(depths@) =~= depth_views(before).push(Seq::<(int, int)>::empty()));
                    assert(no_sizes((depths.len() - k) as nat) =~= no_sizes((before.len() - k) as nat).push(Seq::<(int, int)>::empty()));
                    assert(depth_views(depths@) =~= d1 + no_sizes((depths.len() - k) as nat));
                }
            }
            depths.set(1, copy_sizes(raises));
        } else {
            depths.set(1, copy_sizes(raises));
        }
    }
    assert(depth_views(depths@) =~= with_sizes(d0, b, q));
}

/// The sizes a batch solves with on every street when it names none: bets
/// of 33%, 2/3 and 5/4 of the pot, then raises of 1/2 and the whole pot.
pub fn default_street_sizes() -> (r: Vec<Vec<PotFraction>>)
    ensures
        depth_views(r@) == seq![
            seq![(33int, 100int), (2int, 3int), (5int, 4int)],
            seq![(1int, 2int), (1int, 1int)],
        ],
{
    let bets = vec![
        PotFraction { num: 33, den: 100 },
        PotFraction { num: 2, den: 3 },
        PotFraction { num: 5, den: 4 },
    ];
    let raises = vec![PotFraction { num: 1, den: 2 }, PotFraction { num: 1, den: 1 }];
    assert(fraction_views(bets@) =~= seq![(33int, 100int), (2int, 3int), (5int, 4int)]);
    assert(fraction_views(raises@) =~= seq![(1int, 2int), (1int, 1int)]);
    let r = vec![bets, raises];
    assert(depth_views(r@) =~= seq![
        seq![(33int, 100int), (2int, 3int), (5int, 4int)],
        seq![(1int, 2int), (1int, 1int)],
    ]);
    r
}

/// The entries `lo..hi` of a batch of `len` entries that a run from entry
/// `start` over `count` entries takes: both ends held to the batch, and a
/// count of zero meaning every entry from `start` on.
pub fn batch_window(len: usize, start: usize, count: usize) -> (r: (usize, usize))
    requires
        count == 0 || (if start < len { start as int } else { len as int }) + count <= usize::MAX,
    ensures
        r.0 == (if start < len { start } else { len }),
        r.1 == (if count == 0 {
            len as int
        } else if r.0 + count < len {
            r.0 + count
        } else {
            len as int
        }),
        r.0 <= r.1 <= len,
{
    let lo = if start < len { start } else { len };
    let hi = if count == 0 {
        len
    } else if lo + count < len {
        lo + count
    } else {
        len
    };
    (lo, hi)
}

/// `s` with every space made an underscore.
pub open spec fn underscored(s: Seq<char>) -> Seq<char> {
    s.map_values(|c: char| if c == ' ' { '_' } else { c })
}

/// The name of the file that holds the result of one batch entry:
/// `{matchup}_{board}.json`, with the spaces of the matchup's name made
/// underscores.
pub open spec fn spot_file(matchup: Seq<char>, board: Seq<char>) -> Seq<char> {
    underscored(matchup) + seq!['_'] + board + seq!['.', 'j', 's', 'o', 'n']
}

/// The name of the file that holds the result of one batch entry.
pub fn spot_file_name(matchup: &str, board: &str) -> (r: String)
    ensures
        r@ == spot_file(matchup@, board@),
{
    proof {
        reveal_strlit("_");
        reveal_strlit(".json");
    }
    let n = matchup.unicode_len();
    let mut out = String::new();
    let mut i: usize = 0;
    while i < n
        invariant
            n == matchup@.len(),
            i <= n,
            out@ == underscored(matchup@.take(i as int)),
        decreases n - i,
    {
        let c = matchup.get_char(i);
        let ghost prev = matchup@.take(i as int);
        if c == ' ' {
            proof {
                reveal_strlit("_");
            }
            out.append("_");
        } else {
            let piece = matchup.substring_char(i, i + 1);
            assert(piece@ =~= seq![c]);
            out.append(piece);
        }
        i += 1;
        assert(matchup@.take(i as int) =~= prev.push(c));
        assert(underscored(prev.push(c)) =~= underscored(prev).push(if c == ' ' { '_' } else { c }));
        assert(out@ =~= underscored(matchup@.take(i as int)));
    }
    assert(matchup@.take(n as int) =~= matchup@);
    out.append("_");
    out.append(board);
    out.append(".json");
    assert(out@ =~= spot_file(matchup@, board@));
    out
}

/// `s` ends with `suffix`.
pub open spec fn ends_with(s: Seq<char>, suffix: Seq<char>) -> bool {
    suffix.len() <= s.len() && s.subrange(s.len() - suffix.len(), s.len() as int) == suffix
}

/// A solve's result is written as HTML: when the format named is "html",
/// not when it is "json", and otherwise when the output's name ends in
/// ".html" or ".htm".
pub open spec fn html_wanted(format: Option<Seq<char>>, output: Seq<char>) -> bool {
    let by_name = ends_with(output, seq!['.', 'h', 't', 'm', 'l']) || ends_with(output, seq!['.', 'h', 't', 'm']);
    match format {
        Some(f) => if f == seq!['h', 't', 'm', 'l'] {
            true
        } else if f == seq!['j', 's', 'o', 'n'] {
            false
        } else {
            by_name
        },
        None => by_name,
    }
}

/// `s` ends with `suffix`.
fn ends_with_text(s: &str, suffix: &str) -> (r: bool)
    ensures
        r == ends_with(s@, suffix@),
{
    let n = s.unicode_len();
    let k = suffix.unicode_len();
    if k > n {
        return false;
    }
    let mut i: usize = 0;
    while i < k
        invariant
            n == s@.len(),
            k == suffix@.len(),
            k <= n,
            i <= k,
            forall|j: int| 0 <= j < i ==> s@[n - k + j] == suffix@[j],
        decreases k - i,
    {
        if s.get_char(n - k + i) != suffix.get_char(i) {
            assert(s@.subrange(n - k, n as int)[i as int] != suffix@[i as int]);
            return false;
        }
        i += 1;
    }
    assert(s@.subrange(n - k, n as int) =~= suffix@);
    true
}

/// `a` and `b` hold the same characters.
fn same_text(a: &str, b: &str) -> (r: bool)
    ensures
        r == (a@ == b@),
{
    let n = a.unicode_len();
    if n != b.unicode_len() {
        return false;
    }
    let mut i: usize = 0;
    while i < n
        invariant
            n == a@.len(),
            n == b@.len(),
            i <= n,
            forall|j: int| 0 <= j < i ==> a@[j] == b@[j],
        decreases n - i,
    {
        if a.get_char(i) != b.get_char(i) {
            return false;
        }
        i += 1;
    }
    assert(a@ =~= b@);
    true
}

/// Whether a solve's result is written as HTML rather than JSON, from the
/// format named (if any) and the output file's name.
pub fn writes_html(format: Option<&str>, output: &str) -> (r: bool)
    ensures
        r == html_wanted(
            match format {
                Some(f) => Some(f@),
                None => None,
            },
            output@,
        ),
{
    proof {
        reveal_strlit("html");
        reveal_strlit("json");
        reveal_strlit(".html");
        reveal_strlit(".htm");
        assert("html"@ =~= seq!['h', 't', 'm', 'l']);
        assert("json"@ =~= seq!['j', 's', 'o', 'n']);
        assert(".html"@ =~= seq!['.', 'h', 't', 'm', 'l']);
        assert(".htm"@ =~= seq!['.', 'h', 't', 'm']);
    }
    if let Some(f) = format {
        if same_text(f, "html") {
            return true;
        }
        if same_text(f, "json") {
            return false;
        }
    }
    ends_with_text(output, ".html") || ends_with_text(output, ".htm")
}

} // verus!
