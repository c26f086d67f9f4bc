//! Betting actions and node kinds of the preflop game.

use vstd::prelude::*;
use crate::text::{decimal, decimal_string};

verus! {

/// One betting action. Chip amounts are in chips (1 chip = 0.5bb).
#[derive(Debug, Clone, Copy, PartialEq, Eq, Hash, Structural)]
pub enum PreflopAction {
    Fold,
    Check,
    Call,
    /// Raise to this total bet.
    Raise(i32),
    AllIn,
}

/// What a state is: a fold win for one seat, a showdown, or a decision for one seat.
#[derive(Debug, Clone, Copy, PartialEq, Eq, Structural)]
pub enum PreflopNodeType {
    /// The only seat left in the hand.
    TerminalFold(u8),
    TerminalShowdown,
    /// The seat that must act.
    Decision(u8),
}

/// The text of an action as shown to users ("fold", "raise 18", ...).
pub open spec fn action_text(a: PreflopAction) -> Seq<char> {
    match a {
        PreflopAction::Fold => "fold"@,
        PreflopAction::Check => "check"@,
        PreflopAction::Call => "call"@,
        PreflopAction::Raise(total) => "raise "@ + decimal(total as int),
        PreflopAction::AllIn => "allin"@,
    }
}

impl PreflopAction {
    /// The text of this action: `fold`, `check`, `call`, `raise {total}` or `allin`.
    pub fn label(&self) -> (r: String)
        ensures
            r@ == action_text(*self),
    {
        match self {
            PreflopAction::Fold => String::from_str("fold"),
            PreflopAction::Check => String::from_str("check"),
            PreflopAction::Call => String::from_str("call"),
            PreflopAction::Raise(total) => {
                let s = String::from_str("raise ");
                let d = decimal_string(*total as i64);
                s.concat(d.as_str())
            },
            PreflopAction::AllIn => String::from_str("allin"),
        }
    }

    /// Whether this action is a call.
    pub fn is_call(&self) -> (r: bool)
        ensures
            r == (*self is Call),
    {
        match self {
            PreflopAction::Call => true,
            _ => false,
        }
    }

    /// Whether this action is a fold.
    pub fn is_fold(&self) -> (r: bool)
        ensures
            r == (*self is Fold),
    {
        match self {
            PreflopAction::Fold => true,
            _ => false,
        }
    }

    /// Whether this action is a sized raise.
    pub fn is_raise(&self) -> (r: bool)
        ensures
            r == (*self is Raise),
    {
        match self {
            PreflopAction::Raise(_) => true,
            _ => false,
        }
    }
}

} // verus!
