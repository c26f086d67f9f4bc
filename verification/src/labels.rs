//! Human-readable names of seats, actions and betting lines.

use vstd::prelude::*;
use crate::action::PreflopAction;
use crate::text::{decimal, push_decimal_u64};

verus! {

/// Seat names: UTG, HJ, CO, BTN, SB, BB.
pub open spec fn seat_name(i: int) -> Seq<char> {
    if i == 0 { "UTG"@ }
    else if i == 1 { "HJ"@ }
    else if i == 2 { "CO"@ }
    else if i == 3 { "BTN"@ }
    else if i == 4 { "SB"@ }
    else { "BB"@ }
}

/// The name of seat `i` (0 = UTG ... 5 = BB).
pub fn position_name(i: usize) -> (r: &'static str)
    requires
        i < 6,
    ensures
        r@ == seat_name(i as int),
{
    if i == 0 { "UTG" }
    else if i == 1 { "HJ" }
    else if i == 2 { "CO" }
    else if i == 3 { "BTN" }
    else if i == 4 { "SB" }
    else { "BB" }
}

/// One action taken on the way to a node.
#[derive(Debug, Clone, Copy)]
pub struct ActionRecord {
    /// Seat that acted.
    pub position: usize,
    pub action: PreflopAction,
    /// Number of raises made before this action.
    pub raise_depth: u8,
}

/// Someone limped: some earlier action is a call with no raise before it.
pub open spec fn has_limpers(prior: Seq<ActionRecord>) -> bool {
    exists|i: int| 0 <= i < prior.len() && (#[trigger] prior[i]).action is Call && prior[i].raise_depth == 0
}

/// How an action reads given the raises before it: a call before any raise is
/// a limp, the first raise an open (a raise over limpers), then 3bet, 4bet,
/// `{n}bet`; an all-in before any raise is a shove.
pub open spec fn action_word(action: PreflopAction, raise_depth: u8, prior: Seq<ActionRecord>) -> Seq<char> {
    match action {
        PreflopAction::Fold => "fold"@,
        PreflopAction::Check => "check"@,
        PreflopAction::Call => if raise_depth == 0 { "limp"@ } else { "call"@ },
        PreflopAction::Raise(_) => {
            if raise_depth == 0 {
                if has_limpers(prior) { "raise"@ } else { "open"@ }
            } else if raise_depth == 1 {
                "3bet"@
            } else if raise_depth == 2 {
                "4bet"@
            } else {
                decimal(raise_depth + 1) + "bet"@
            }
        },
        PreflopAction::AllIn => if raise_depth == 0 { "shove"@ } else { "allin"@ },
    }
}

/// Describes an action in words given the significant actions before it.
pub fn action_label(action: &PreflopAction, raise_depth: u8, prior: &[ActionRecord]) -> (r: String)
    ensures
        r@ == action_word(*action, raise_depth, prior@),
{
    match action {
        PreflopAction::Fold => String::from_str("fold"),
        PreflopAction::Check => String::from_str("check"),
        PreflopAction::Call => if raise_depth == 0 {
            String::from_str("limp")
        } else {
            String::from_str("call")
        },
        PreflopAction::Raise(_) => {
            if raise_depth == 0 {
                let mut limpers = false;
                let mut i: usize = 0;
                while i < prior.len()
                    invariant
                        i <= prior@.len(),
                        limpers == exists|j: int|
                            0 <= j < i && (#[trigger] prior@[j]).action is Call && prior@[j].raise_depth == 0,
                    decreases prior.len() - i,
                {
                    if prior[i].action.is_call() && prior[i].raise_depth == 0 {
                        limpers = true;
                    }
                    i += 1;
                }
                if limpers {
                    String::from_str("raise")
                } else {
                    String::from_str("open")
                }
            } else if raise_depth == 1 {
                String::from_str("3bet")
            } else if raise_depth == 2 {
                String::from_str("4bet")
            } else {
                let mut s = String::new();
                push_decimal_u64(&mut s, raise_depth as u64 + 1);
                s.append("bet");
                assert(s@ =~= decimal(raise_depth + 1) + "bet"@);
                s
            }
        },
        PreflopAction::AllIn => if raise_depth == 0 {
            String::from_str("shove")
        } else {
            String::from_str("allin")
        },
    }
}

/// The actions that are not folds.
pub open spec fn significant(log: Seq<ActionRecord>) -> Seq<ActionRecord> {
    log.filter(|r: ActionRecord| !(r.action is Fold))
}

/// "{seat} {word}" for the `i`-th significant action.
pub open spec fn line_part(sig: Seq<ActionRecord>, i: int) -> Seq<char> {
    seat_name(sig[i].position as int) + " "@ + action_word(sig[i].action, sig[i].raise_depth, sig.take(i))
}

/// The first `n` parts joined by " > ".
pub open spec fn line_of(sig: Seq<ActionRecord>, n: int) -> Seq<char>
    decreases n,
{
    if n <= 0 {
        Seq::empty()
    } else if n == 1 {
        line_part(sig, 0)
    } else {
        line_of(sig, n - 1) + " > "@ + line_part(sig, n - 1)
    }
}

/// `(spot name, line)` for a node where `actor` is to act after the actions in `log`:
/// `"{seat} RFI"` with an empty line when nothing but folds happened, otherwise
/// `"{seat} | {line}"` where the line lists the non-fold actions joined by " > ".
pub open spec fn spot_label(actor: int, log: Seq<ActionRecord>) -> (Seq<char>, Seq<char>) {
    let sig = significant(log);
    if sig.len() == 0 {
        (seat_name(actor) + " RFI"@, Seq::empty())
    } else {
        let line = line_of(sig, sig.len() as int);
        (seat_name(actor) + " | "@ + line, line)
    }
}

/// Builds `(spot name, line)` for a decision node (see [`spot_label`]), e.g.
/// `("UTG RFI", "")`, `("BB | SB limp", "SB limp")`,
/// `("CO | UTG open > HJ call", "UTG open > HJ call")`.
pub fn build_label(actor: usize, log: &[ActionRecord]) -> (r: (String, String))
    requires
        actor < 6,
        forall|i: int| 0 <= i < log@.len() && !((#[trigger] log@[i]).action is Fold) ==> log@[i].position < 6,
    ensures
        r.0@ == spot_label(actor as int, log@).0,
        r.1@ == spot_label(actor as int, log@).1,
{
    let ghost pred = |r: ActionRecord| !(r.action is Fold);
    let mut sig: Vec<ActionRecord> = Vec::new();
    let mut i: usize = 0;
    assert(log@.take(0) =~= Seq::<ActionRecord>::empty());
    proof { reveal(Seq::filter); }
    while i < log.len()
        invariant
            i <= log@.len(),
            sig@ == log@.take(i as int).filter(pred),
            pred == (|r: ActionRecord| !(r.action is Fold)),
            forall|j: int| 0 <= j < sig@.len() ==> (#[trigger] sig@[j]).position < 6,
            forall|i: int| 0 <= i < log@.len() && !((#[trigger] log@[i]).action is Fold) ==> log@[i].position < 6,
        decreases log.len() - i,
    {
        let rec = log[i];
        proof {
            log@.take(i as int).lemma_filter_push(rec, pred);
            assert(log@.take(i as int).push(rec) =~= log@.take(i + 1));
        }
        if !rec.action.is_fold() {
            sig.push(rec);
        }
        i += 1;
    }
    assert(log@.take(log@.len() as int) =~= log@);
    assert(sig@ == significant(log@));
    let name = position_name(actor);
    if sig.len() == 0 {
        let spot = String::from_str(name).concat(" RFI");
        return (spot, String::new());
    }
    let mut line = String::new();
    let mut k: usize = 0;
    while k < sig.len()
        invariant
            k <= sig@.len(),
            sig@ == significant(log@),
            forall|j: int| 0 <= j < sig@.len() ==> (#[trigger] sig@[j]).position < 6,
            line@ == line_of(sig@, k as int),
        decreases sig.len() - k,
    {
        if k > 0 {
            line.append(" > ");
        }
        let rec = sig[k];
        line.append(position_name(rec.position));
        line.append(" ");
        let word = action_label(&rec.action, rec.raise_depth, vstd::slice::slice_subrange(sig.as_slice(), 0, k));
        line.append(word.as_str());
        k += 1;
        assert(line@ =~= line_of(sig@, k as int));
    }
    let mut spot = String::from_str(name);
    spot.append(" | ");
    spot.append(line.as_str());
    (spot, line)
}

} // verus!
