//! Writing blueprint file names, and reading back what was written.

use vstd::prelude::*;
use crate::text::{decimal, decimal_nat, push_decimal_u64, push_decimal_i64, is_digit, lemma_decimal_nat_reads_back, law_decimal_reads_back};
use crate::filename::{blueprint_name, blueprint_filename_value, names_fields, no_underscore, lemma_name_shape};

verus! {

/// The file name of the blueprint for `np` players and stacks of `sbb` big
/// blinds: `preflop_{np}p_{sbb}bb.bin`.
pub fn blueprint_filename(np: usize, sbb: i32) -> (r: String)
    ensures
        r@ == blueprint_name(decimal(np as int), decimal(sbb as int)),
{
    let mut s = String::from_str("preflop_");
    push_decimal_u64(&mut s, np as u64);
    s.append("p_");
    push_decimal_i64(&mut s, sbb as i64);
    s.append("bb.bin");
    assert(decimal(np as int) == decimal_nat(np as nat));
    assert(s@ =~= blueprint_name(decimal(np as int), decimal(sbb as int)));
    s
}

/// Reading a blueprint file name back gives the player count and stack it
/// was made from, for 2 to 6 players and a positive stack.
pub proof fn law_blueprint_filename_reads_back(np: int, sbb: int)
    requires
        2 <= np <= 6,
        0 < sbb <= i32::MAX,
    ensures
        blueprint_filename_value(blueprint_name(decimal(np), decimal(sbb))) == Some((np as usize, sbb as i32)),
{
    let a = decimal(np);
    let b = decimal(sbb);
    let s = blueprint_name(a, b);
    lemma_decimal_nat_reads_back(np as nat);
    lemma_decimal_nat_reads_back(sbb as nat);
    law_decimal_reads_back(np);
    law_decimal_reads_back(sbb);
    assert(no_underscore(a)) by {
        assert forall|i: int| 0 <= i < a.len() implies a[i] != '_' by {
            assert(is_digit(a[i]));
        }
    }
    assert(no_underscore(b)) by {
        assert forall|i: int| 0 <= i < b.len() implies b[i] != '_' by {
            assert(is_digit(b[i]));
        }
    }
    assert(names_fields(s, a, b));
    lemma_name_shape(s, a, b);
    assert forall|a2: Seq<char>, b2: Seq<char>| names_fields(s, a2, b2) implies a2 == a && b2 == b by {
        lemma_name_shape(s, a2, b2);
        assert(9 + a.len() as int == 9 + a2.len() as int);
    }
    let (ca, cb) = choose|a2: Seq<char>, b2: Seq<char>| names_fields(s, a2, b2);
    assert(ca == a && cb == b);
}

} // verus!
