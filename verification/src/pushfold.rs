//! Seat names and spot descriptions for short-handed push/fold charts.

use vstd::prelude::*;

verus! {

/// Seat names at a table of 2, 3 or 4 players, first to act first.
pub open spec fn short_table_names(num_players: int) -> Seq<Seq<char>> {
    if num_players == 2 {
        seq!["SB"@, "BB"@]
    } else if num_players == 3 {
        seq!["BTN"@, "SB"@, "BB"@]
    } else {
        seq!["CO"@, "BTN"@, "SB"@, "BB"@]
    }
}

/// The seat names at a push/fold table of `num_players` (2 to 4) players.
pub fn position_names(num_players: usize) -> (r: &'static [&'static str])
    requires
        2 <= num_players <= 4,
    ensures
        r@.len() == num_players,
        forall|i: int| 0 <= i < num_players ==> (#[trigger] r@[i])@ == short_table_names(num_players as int)[i],
{
    if num_players == 2 {
        &["SB", "BB"]
    } else if num_players == 3 {
        &["BTN", "SB", "BB"]
    } else {
        &["CO", "BTN", "SB", "BB"]
    }
}

/// Seat `p` pushed in the mask of earlier pushes.
pub open spec fn pushed(mask: usize, p: int) -> bool {
    mask & (1usize << (p as usize)) != 0
}

/// The names of the seats before `n` that pushed, in seat order.
pub open spec fn pusher_names(mask: usize, names: Seq<&str>, n: int) -> Seq<Seq<char>>
    decreases n,
{
    if n <= 0 {
        Seq::empty()
    } else if pushed(mask, n - 1) {
        pusher_names(mask, names, n - 1).push(names[n - 1]@)
    } else {
        pusher_names(mask, names, n - 1)
    }
}

/// The parts joined by '+'.
pub open spec fn join_plus(parts: Seq<Seq<char>>) -> Seq<char>
    decreases parts.len(),
{
    if parts.len() == 0 {
        Seq::empty()
    } else if parts.len() == 1 {
        parts[0]
    } else {
        join_plus(parts.drop_last()) + "+"@ + parts.last()
    }
}

/// What `player` faces: "no action" when nobody has pushed anywhere,
/// "all fold" when nobody before `player` pushed, else "{A}+{B} push".
pub open spec fn facing_text(mask: usize, names: Seq<&str>, player: int) -> Seq<char> {
    if mask == 0 {
        "no action"@
    } else {
        let ps = pusher_names(mask, names, player);
        if ps.len() == 0 { "all fold"@ } else { join_plus(ps) + " push"@ }
    }
}

/// Describes what `player` faces given the mask of seats that pushed before.
pub fn facing_description(prior_mask: usize, names: &[&str], player: usize) -> (r: String)
    requires
        prior_mask != 0 ==> player <= usize::BITS,
        prior_mask != 0 ==> forall|p: int| 0 <= p < player && pushed(prior_mask, p) ==> p < names@.len(),
    ensures
        r@ == facing_text(prior_mask, names@, player as int),
{
    if prior_mask == 0 {
        return String::from_str("no action");
    }
    let mut out = String::new();
    let mut count: usize = 0;
    let mut p: usize = 0;
    while p < player
        invariant
            p <= player <= usize::BITS,
            prior_mask != 0,
            forall|q: int| 0 <= q < player && pushed(prior_mask, q) ==> q < names@.len(),
            count == pusher_names(prior_mask, names@, p as int).len(),
            count <= p,
            out@ == join_plus(pusher_names(prior_mask, names@, p as int)),
        decreases player - p,
    {
        let ghost before = pusher_names(prior_mask, names@, p as int);
        if prior_mask & (1usize << p) != 0 {
            assert(pushed(prior_mask, p as int));
            if count > 0 {
                out.append("+");
            }
            out.append(names[p]);
            count += 1;
            proof {
                let after = before.push(names@[p as int]@);
                assert(after.drop_last() =~= before);
                assert(out@ =~= join_plus(after));
            }
        }
        p += 1;
    }
    if count == 0 {
        String::from_str("all fold")
    } else {
        out.append(" push");
        out
    }
}

} // verus!
