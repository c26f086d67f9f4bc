//! Bet sizing presets for the preflop game.

use vstd::prelude::*;

verus! {

/// The mathematical content of a [`PreflopBetConfig`].
pub struct ConfigModel {
    pub raise_sizes: Seq<Seq<i32>>,
    pub sb_limp: bool,
    pub sb_open_size: Option<i32>,
    pub min_allin_depth: u8,
}

/// Bet sizing rules. Chip unit: 1 chip = 0.5bb (SB = 1, BB = 2).
#[derive(Debug)]
pub struct PreflopBetConfig {
    /// `raise_sizes[depth]` = total bet sizes in chips offered at that raise depth:
    /// depth 0 = open (RFI), 1 = 3-bet, 2 = 4-bet, ... Beyond the last depth only
    /// all-in is offered.
    pub raise_sizes: Vec<Vec<i32>>,
    /// Whether the SB may complete (limp) when nobody has opened.
    pub sb_limp: bool,
    /// Total bet the SB opens to, replacing the depth-0 sizes for the SB.
    pub sb_open_size: Option<i32>,
    /// Minimum number of raises before all-in is offered as a voluntary action
    /// (0 = always, 1 = only after someone opens, ...). A forced all-in, when the
    /// amount to call is the whole stack, is always offered.
    pub min_allin_depth: u8,
}

impl View for PreflopBetConfig {
    type V = ConfigModel;

    open spec fn view(&self) -> ConfigModel {
        ConfigModel {
            raise_sizes: self.raise_sizes@.map_values(|v: Vec<i32>| v@),
            sb_limp: self.sb_limp,
            sb_open_size: self.sb_open_size,
            min_allin_depth: self.min_allin_depth,
        }
    }
}

/// The NL500 preset: open 2.5bb, SB open 3.5bb, 3-bet 9bb, 4-bet 22bb, no open-shove.
pub open spec fn nl500_model() -> ConfigModel {
    ConfigModel {
        raise_sizes: seq![seq![5i32], seq![18i32], seq![44i32]],
        sb_limp: true,
        sb_open_size: Some(7i32),
        min_allin_depth: 1,
    }
}

/// Every stack deeper than 50bb plays the NL500 tree: opens to 2.5bb (5
/// chips), the SB to 3.5bb, 3-bets to 9bb, 4-bets to 22bb, no open-shove;
/// so any two such stacks get the same preset.
pub proof fn law_deep_stacks_play_nl500(stack_bb: int, other_bb: int)
    requires
        stack_bb > 50,
        other_bb > 50,
    ensures
        for_stack_model(stack_bb) == nl500_model(),
        for_stack_model(stack_bb) == for_stack_model(other_bb),
        for_stack_model(stack_bb).raise_sizes =~~= seq![seq![5i32], seq![18i32], seq![44i32]],
        for_stack_model(stack_bb).sb_open_size == Some(7i32),
        for_stack_model(stack_bb).min_allin_depth == 1,
        for_stack_model(stack_bb).sb_limp,
{
}

/// The shallower presets: up to 15bb a 2bb open and nothing but all-in
/// after it, open-shove allowed; up to 25bb the same with a 2.5bb open;
/// up to 50bb a 2.5bb open and an 8bb 3-bet, all-in only after that and
/// no open-shove. A deeper stack never gets fewer raise sizes.
pub proof fn law_shallow_stack_presets(stack_bb: int, deeper_bb: int)
    requires
        stack_bb <= deeper_bb,
    ensures
        stack_bb <= 15 ==> for_stack_model(stack_bb).raise_sizes =~~= seq![seq![4i32]]
            && for_stack_model(stack_bb).min_allin_depth == 0,
        15 < stack_bb <= 25 ==> for_stack_model(stack_bb).raise_sizes =~~= seq![seq![5i32]]
            && for_stack_model(stack_bb).min_allin_depth == 0,
        25 < stack_bb <= 50 ==> for_stack_model(stack_bb).raise_sizes =~~= seq![seq![5i32], seq![16i32]]
            && for_stack_model(stack_bb).min_allin_depth == 1,
        for_stack_model(stack_bb).raise_sizes.len() <= for_stack_model(deeper_bb).raise_sizes.len(),
{
}

/// The preset chosen for a stack of `stack_bb` big blinds.
pub open spec fn for_stack_model(stack_bb: int) -> ConfigModel {
    if stack_bb <= 15 {
        ConfigModel {
            raise_sizes: seq![seq![4i32]],
            sb_limp: true,
            sb_open_size: Some(5i32),
            min_allin_depth: 0,
        }
    } else if stack_bb <= 25 {
        ConfigModel {
            raise_sizes: seq![seq![5i32]],
            sb_limp: true,
            sb_open_size: Some(7i32),
            min_allin_depth: 0,
        }
    } else if stack_bb <= 50 {
        ConfigModel {
            raise_sizes: seq![seq![5i32], seq![16i32]],
            sb_limp: true,
            sb_open_size: Some(7i32),
            min_allin_depth: 1,
        }
    } else {
        nl500_model()
    }
}

fn copy_sizes(v: &Vec<i32>) -> (r: Vec<i32>)
    ensures
        r@ == v@,
{
    let mut r: Vec<i32> = Vec::new();
    let mut i: usize = 0;
    while i < v.len()
        invariant
            i <= v.len(),
            r@ == v@.take(i as int),
        decreases v.len() - i,
    {
        r.push(v[i]);
        i += 1;
        assert(r@ =~= v@.take(i as int));
    }
    assert(v@.take(v.len() as int) =~= v@);
    r
}

impl PreflopBetConfig {
    /// NL500 standard: 2.5bb open, 3.5bb SB open, 9bb 3-bet, 22bb 4-bet.
    pub fn nl500() -> (r: Self)
        ensures
            r@ == nl500_model(),
    {
        let r = PreflopBetConfig {
            raise_sizes: vec![vec![5], vec![18], vec![44]],
            sb_limp: true,
            sb_open_size: Some(7),
            min_allin_depth: 1,
        };
        assert(r@.raise_sizes =~~= nl500_model().raise_sizes);
        r
    }

    /// Stack-depth preset for a stack of `stack_bb` big blinds:
    /// up to 15bb a 2bb open then shove-only, up to 25bb a 2.5bb open then
    /// shove-only (open-shove allowed at both), up to 50bb open and 3-bet then
    /// shove-only, deeper the NL500 tree.
    pub fn for_stack(stack_bb: i32) -> (r: Self)
        ensures
            r@ == for_stack_model(stack_bb as int),
    {
        if stack_bb <= 15 {
            let r = PreflopBetConfig {
                raise_sizes: vec![vec![4]],
                sb_limp: true,
                sb_open_size: Some(5),
                min_allin_depth: 0,
            };
            assert(r@.raise_sizes =~~= for_stack_model(stack_bb as int).raise_sizes);
            r
        } else if stack_bb <= 25 {
            let r = PreflopBetConfig {
                raise_sizes: vec![vec![5]],
                sb_limp: true,
                sb_open_size: Some(7),
                min_allin_depth: 0,
            };
            assert(r@.raise_sizes =~~= for_stack_model(stack_bb as int).raise_sizes);
            r
        } else if stack_bb <= 50 {
            let r = PreflopBetConfig {
                raise_sizes: vec![vec![5], vec![16]],
                sb_limp: true,
                sb_open_size: Some(7),
                min_allin_depth: 1,
            };
            assert(r@.raise_sizes =~~= for_stack_model(stack_bb as int).raise_sizes);
            r
        } else {
            Self::nl500()
        }
    }

    /// A copy of this configuration with the same content.
    pub fn duplicate(&self) -> (r: Self)
        ensures
            r@ == self@,
    {
        let mut sizes: Vec<Vec<i32>> = Vec::new();
        let mut i: usize = 0;
        while i < self.raise_sizes.len()
            invariant
                i <= self.raise_sizes.len(),
                sizes@.len() == i,
                forall|j: int| 0 <= j < i ==> #[trigger] sizes@[j]@ == self.raise_sizes@[j]@,
            decreases self.raise_sizes.len() - i,
        {
            let inner = copy_sizes(&self.raise_sizes[i]);
            sizes.push(inner);
            i += 1;
        }
        let r = PreflopBetConfig {
            raise_sizes: sizes,
            sb_limp: self.sb_limp,
            sb_open_size: self.sb_open_size,
            min_allin_depth: self.min_allin_depth,
        };
        assert(r@.raise_sizes =~= self@.raise_sizes);
        r
    }
}

impl Clone for PreflopBetConfig {
    fn clone(&self) -> (r: Self)
        ensures
            r@ == self@,
    {
        self.duplicate()
    }
}

impl Default for PreflopBetConfig {
    /// The NL500 preset.
    fn default() -> (r: Self)
        ensures
            r@ == nl500_model(),
    {
        Self::nl500()
    }
}

} // verus!
