//! Reading back a saved blueprint gives the same blueprint.

use vstd::prelude::*;
use crate::codec::{le_bytes, pow256, lemma_le_roundtrip};
use crate::config::ConfigModel;
use crate::blueprint::{BlueprintModel, InfoKeyModel, EntryModel, i32_bytes, i32s_bytes, u32s_bytes, depth_bytes, depths_bytes, config_bytes, record_bytes, records_bytes, blueprint_bytes, get_i32s, get_u32s, get_depths, get_config, get_record, get_records, decode_bytes, insert_all, key_pos, distinct_keys, lemma_key_pos_range};

verus! {

/// `le_bytes` always has the requested length.
pub proof fn lemma_le_bytes_len(n: nat, k: nat)
    ensures
        le_bytes(n, k).len() == k,
    decreases k,
{
    if k > 0 {
        lemma_le_bytes_len(n / 256, (k - 1) as nat);
    }
}

proof fn lemma_pow256_facts()
    ensures
        pow256(2) == 65536,
        pow256(4) == 4294967296,
        pow256(8) == 18446744073709551616,
{
    reveal_with_fuel(pow256, 9);
}

/// The pieces of a concatenation found at a position of `b` can be read one by one.
proof fn lemma_sub_split(b: Seq<u8>, pos: int, x: Seq<u8>, y: Seq<u8>)
    requires
        0 <= pos,
        pos + x.len() + y.len() <= b.len(),
        b.subrange(pos, pos + x.len() + y.len()) == x + y,
    ensures
        b.subrange(pos, pos + x.len()) == x,
        b.subrange(pos + x.len(), pos + x.len() + y.len()) == y,
{
    assert(b.subrange(pos, pos + x.len()) =~= (x + y).subrange(0, x.len() as int));
    assert(b.subrange(pos + x.len(), pos + x.len() + y.len()) =~= (x + y).subrange(
        x.len() as int,
        (x.len() + y.len()) as int,
    ));
    assert((x + y).subrange(0, x.len() as int) =~= x);
    assert((x + y).subrange(x.len() as int, (x.len() + y.len()) as int) =~= y);
}

proof fn lemma_i32_bits(x: i32)
    ensures
        ((((x as u32) as nat) as u32) as i32) == x,
{
    assert(((x as u32) as i32) == x) by (bit_vector);
}

proof fn lemma_i32s_len(s: Seq<i32>)
    ensures
        i32s_bytes(s).len() == 4 * s.len(),
    decreases s.len(),
{
    if s.len() > 0 {
        lemma_i32s_len(s.drop_last());
        lemma_le_bytes_len((s.last() as u32) as nat, 4);
    }
}

proof fn lemma_u32s_len(s: Seq<u32>)
    ensures
        u32s_bytes(s).len() == 4 * s.len(),
    decreases s.len(),
{
    if s.len() > 0 {
        lemma_u32s_len(s.drop_last());
        lemma_le_bytes_len(s.last() as nat, 4);
    }
}

proof fn lemma_read_i32s(b: Seq<u8>, pos: int, s: Seq<i32>)
    requires
        0 <= pos,
        pos + i32s_bytes(s).len() <= b.len(),
        b.subrange(pos, pos + i32s_bytes(s).len()) == i32s_bytes(s),
    ensures
        get_i32s(b, pos, s.len()) == Some((s, pos + i32s_bytes(s).len())),
    decreases s.len(),
{
    lemma_i32s_len(s);
    if s.len() > 0 {
        let x = i32s_bytes(s.drop_last());
        let y = i32_bytes(s.last());
        lemma_pow256_facts();
        lemma_le_bytes_len((s.last() as u32) as nat, 4);
        lemma_sub_split(b, pos, x, y);
        lemma_read_i32s(b, pos, s.drop_last());
        lemma_le_roundtrip((s.last() as u32) as nat, 4);
        lemma_i32_bits(s.last());
        assert(s.drop_last().push(s.last()) =~= s);
    }
}

proof fn lemma_read_u32s(b: Seq<u8>, pos: int, s: Seq<u32>)
    requires
        0 <= pos,
        pos + u32s_bytes(s).len() <= b.len(),
        b.subrange(pos, pos + u32s_bytes(s).len()) == u32s_bytes(s),
    ensures
        get_u32s(b, pos, s.len()) == Some((s, pos + u32s_bytes(s).len())),
    decreases s.len(),
{
    lemma_u32s_len(s);
    if s.len() > 0 {
        let x = u32s_bytes(s.drop_last());
        let y = le_bytes(s.last() as nat, 4);
        lemma_pow256_facts();
        lemma_le_bytes_len(s.last() as nat, 4);
        lemma_sub_split(b, pos, x, y);
        lemma_read_u32s(b, pos, s.drop_last());
        lemma_le_roundtrip(s.last() as nat, 4);
        assert(s.drop_last().push(s.last()) =~= s);
    }
}

/// Every raise depth and every list of sizes fits its one-byte count, and the
/// SB open size, when set, is not negative (negative sizes read back as unset).
pub open spec fn config_fits(c: ConfigModel) -> bool {
    &&& c.raise_sizes.len() <= 255
    &&& forall|d: int| 0 <= d < c.raise_sizes.len() ==> #[trigger] c.raise_sizes[d].len() <= 255
    &&& c.sb_open_size matches Some(x) ==> x >= 0
}

proof fn lemma_read_depths(b: Seq<u8>, pos: int, rs: Seq<Seq<i32>>)
    requires
        0 <= pos,
        forall|d: int| 0 <= d < rs.len() ==> #[trigger] rs[d].len() <= 255,
        pos + depths_bytes(rs).len() <= b.len(),
        b.subrange(pos, pos + depths_bytes(rs).len()) == depths_bytes(rs),
    ensures
        get_depths(b, pos, rs.len()) == Some((rs, pos + depths_bytes(rs).len())),
    decreases rs.len(),
{
    if rs.len() > 0 {
        let last = rs.last();
        let x = depths_bytes(rs.drop_last());
        let y = depth_bytes(last);
        lemma_sub_split(b, pos, x, y);
        assert(forall|d: int| 0 <= d < rs.drop_last().len() ==> #[trigger] rs.drop_last()[d] == rs[d]);
        lemma_read_depths(b, pos, rs.drop_last());
        let p = pos + x.len();
        assert(rs[rs.len() - 1].len() <= 255);
        lemma_sub_split(b, p, seq![last.len() as u8], i32s_bytes(last));
        assert(b.subrange(p, p + 1)[0] == b[p]);
        assert((last.len() as u8) as nat == last.len());
        lemma_read_i32s(b, p + 1, last);
        assert(rs.drop_last().push(last) =~= rs);
    }
}

proof fn lemma_read_config(b: Seq<u8>, c: ConfigModel)
    requires
        config_fits(c),
        config_bytes(c).len() <= b.len(),
        b.subrange(0, config_bytes(c).len() as int) == config_bytes(c),
    ensures
        get_config(b, 0) == Some((c, config_bytes(c).len() as int)),
{
    let n = seq![c.raise_sizes.len() as u8];
    let ds = depths_bytes(c.raise_sizes);
    let limp = seq![if c.sb_limp { 1u8 } else { 0u8 }];
    let raw: i32 = match c.sb_open_size {
        Some(x) => x,
        None => -1i32,
    };
    let open = i32_bytes(raw);
    let md = seq![c.min_allin_depth];
    lemma_le_bytes_len((raw as u32) as nat, 4);
    assert(config_bytes(c) == n + ds + limp + open + md);
    lemma_sub_split(b, 0, n + ds + limp + open, md);
    lemma_sub_split(b, 0, n + ds + limp, open);
    lemma_sub_split(b, 0, n + ds, limp);
    lemma_sub_split(b, 0, n, ds);
    assert(b.subrange(0, 1)[0] == b[0]);
    lemma_read_depths(b, 1, c.raise_sizes);
    let p2: int = (1 + ds.len()) as int;
    assert(b.subrange(p2, p2 + 1)[0] == b[p2]);
    lemma_pow256_facts();
    lemma_le_roundtrip((raw as u32) as nat, 4);
    lemma_i32_bits(raw);
    let p4: int = p2 + 1 + 4;
    assert(b.subrange(p4, p4 + 1)[0] == b[p4]);
    let got = get_config(b, 0);
    assert(got is Some);
    let (gc, gp) = got.unwrap();
    assert(gc =~= c);
}

proof fn lemma_read_record(b: Seq<u8>, pos: int, r: (InfoKeyModel, EntryModel))
    requires
        0 <= pos,
        r.0.history.len() <= 65535,
        r.1.n_actions <= 65535,
        r.1.regrets.len() == r.1.n_actions,
        r.1.cum_strategy.len() == r.1.n_actions,
        pos + record_bytes(r).len() <= b.len(),
        b.subrange(pos, pos + record_bytes(r).len()) == record_bytes(r),
    ensures
        get_record(b, pos) == Some((r, pos + record_bytes(r).len())),
{
    let k = r.0;
    let e = r.1;
    let bk = seq![k.bucket];
    let hl = le_bytes((k.history.len() as u16) as nat, 2);
    let h = k.history;
    let nl = le_bytes((e.n_actions as u16) as nat, 2);
    let rg = u32s_bytes(e.regrets);
    let cs = u32s_bytes(e.cum_strategy);
    lemma_le_bytes_len((k.history.len() as u16) as nat, 2);
    lemma_le_bytes_len((e.n_actions as u16) as nat, 2);
    assert(record_bytes(r) == bk + hl + h + nl + rg + cs);
    lemma_sub_split(b, pos, bk + hl + h + nl + rg, cs);
    lemma_sub_split(b, pos, bk + hl + h + nl, rg);
    lemma_sub_split(b, pos, bk + hl + h, nl);
    lemma_sub_split(b, pos, bk + hl, h);
    lemma_sub_split(b, pos, bk, hl);
    assert(b.subrange(pos, pos + 1)[0] == b[pos]);
    lemma_pow256_facts();
    lemma_le_roundtrip((k.history.len() as u16) as nat, 2);
    lemma_le_roundtrip((e.n_actions as u16) as nat, 2);
    let p3 = pos + 5 + h.len();
    lemma_read_u32s(b, p3, e.regrets);
    lemma_u32s_len(e.regrets);
    lemma_read_u32s(b, p3 + rg.len(), e.cum_strategy);
    let got = get_record(b, pos);
    assert(got is Some);
    let (gr, gp) = got.unwrap();
    assert(gr.0 =~= k);
    assert(gr.1 =~= e);
}

/// Every entry fits the format: history length and action count fit 16 bits,
/// and there is one regret and one strategy sum per action.
pub open spec fn entries_fit(es: Seq<(InfoKeyModel, EntryModel)>) -> bool {
    forall|i: int|
        0 <= i < es.len() ==> {
            &&& (#[trigger] es[i]).0.history.len() <= 65535
            &&& es[i].1.n_actions <= 65535
            &&& es[i].1.regrets.len() == es[i].1.n_actions
            &&& es[i].1.cum_strategy.len() == es[i].1.n_actions
        }
}

proof fn lemma_read_records(b: Seq<u8>, pos: int, es: Seq<(InfoKeyModel, EntryModel)>)
    requires
        0 <= pos,
        entries_fit(es),
        pos + records_bytes(es).len() <= b.len(),
        b.subrange(pos, pos + records_bytes(es).len()) == records_bytes(es),
    ensures
        get_records(b, pos, es.len()) == Some((es, pos + records_bytes(es).len())),
    decreases es.len(),
{
    if es.len() > 0 {
        let x = records_bytes(es.drop_last());
        let y = record_bytes(es.last());
        lemma_sub_split(b, pos, x, y);
        assert(entries_fit(es.drop_last())) by {
            assert forall|i: int| 0 <= i < es.drop_last().len() implies #[trigger] es.drop_last()[i] == es[i] by {}
        }
        lemma_read_records(b, pos, es.drop_last());
        assert(es[es.len() - 1] == es.last());
        lemma_read_record(b, pos + x.len(), es.last());
        assert(es.drop_last().push(es.last()) =~= es);
    }
}

/// Inserting entries with distinct keys one by one gives them back in order.
pub proof fn lemma_insert_all_distinct(es: Seq<(InfoKeyModel, EntryModel)>)
    requires
        distinct_keys(es),
    ensures
        insert_all(es) == es,
    decreases es.len(),
{
    if es.len() > 0 {
        let d = es.drop_last();
        assert(distinct_keys(d));
        lemma_insert_all_distinct(d);
        lemma_key_pos_range(d, es.last().0);
        if key_pos(d, es.last().0) >= 0 {
            let i = key_pos(d, es.last().0);
            assert(es[i].0 == es[es.len() - 1].0);
        }
        assert(d.push(es.last()) =~= es);
    }
}

/// Saving a blueprint and loading the bytes back gives the same blueprint,
/// whatever follows the saved bytes, provided the blueprint fits the format
/// (see [`config_fits`], [`entries_fit`]) and each key occurs once.
pub proof fn law_save_load_roundtrip(m: BlueprintModel, rest: Seq<u8>)
    requires
        m.wf(),
        config_fits(m.config),
        entries_fit(m.entries),
        m.entries.len() <= u64::MAX,
    ensures
        decode_bytes(blueprint_bytes(m) + rest) == Some(m),
{
    let c = config_bytes(m.config);
    let it = le_bytes(m.iterations as nat, 8);
    let cnt = le_bytes((m.entries.len() as u64) as nat, 8);
    let recs = records_bytes(m.entries);
    let b = blueprint_bytes(m) + rest;
    lemma_le_bytes_len(m.iterations as nat, 8);
    lemma_le_bytes_len((m.entries.len() as u64) as nat, 8);
    assert(b == c + it + cnt + recs + rest);
    assert(b.subrange(0, (c + it + cnt + recs).len() as int) =~= c + it + cnt + recs);
    lemma_sub_split(b, 0, c + it + cnt, recs);
    lemma_sub_split(b, 0, c + it, cnt);
    lemma_sub_split(b, 0, c, it);
    lemma_read_config(b, m.config);
    lemma_pow256_facts();
    lemma_le_roundtrip(m.iterations as nat, 8);
    lemma_le_roundtrip((m.entries.len() as u64) as nat, 8);
    lemma_read_records(b, (c.len() + 16) as int, m.entries);
    lemma_insert_all_distinct(m.entries);
    let got = decode_bytes(b);
    assert(got is Some);
    assert(got.unwrap() =~= m);
}

} // verus!
