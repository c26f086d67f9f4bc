//! The blueprint: the regret table learned by training, keyed by information
//! set, and its binary file format.

use vstd::prelude::*;
use crate::codec::{le_bytes, le_value, le_read_u16, le_read_u32, le_read_u64, le_u16_bytes, le_u32_bytes, le_u64_bytes, push_bytes};
use crate::config::{ConfigModel, PreflopBetConfig};

verus! {

/// The content of a [`PreflopInfoKey`].
#[verifier::ext_equal]
pub struct InfoKeyModel {
    pub bucket: u8,
    pub history: Seq<u8>,
}

/// The content of a [`RegretEntry`].
#[verifier::ext_equal]
pub struct EntryModel {
    pub regrets: Seq<u32>,
    pub cum_strategy: Seq<u32>,
    pub n_actions: usize,
}

/// The content of a [`PreflopBlueprint`].
#[verifier::ext_equal]
pub struct BlueprintModel {
    pub entries: Seq<(InfoKeyModel, EntryModel)>,
    pub iterations: u64,
    pub config: ConfigModel,
}

/// An information set: the canonical hand bucket of the seat to act and the
/// indices of the actions taken from the root.
#[derive(Debug)]
pub struct PreflopInfoKey {
    /// Canonical hand index, 0..169.
    pub bucket: u8,
    /// Action indices from the root.
    pub history: Vec<u8>,
}

/// The learned values of one information set. The 32-bit floats are held as
/// their IEEE-754 bit patterns.
#[derive(Debug)]
pub struct RegretEntry {
    pub regrets: Vec<u32>,
    pub cum_strategy: Vec<u32>,
    pub n_actions: usize,
}

/// The learned table, the number of training iterations and the bet sizing
/// it was trained with. Each key occurs once (see [`BlueprintModel::wf`]).
#[derive(Debug)]
pub struct PreflopBlueprint {
    pub entries: Vec<(PreflopInfoKey, RegretEntry)>,
    pub iterations: u64,
    pub config: PreflopBetConfig,
}

impl View for PreflopInfoKey {
    type V = InfoKeyModel;

    open spec fn view(&self) -> InfoKeyModel {
        InfoKeyModel { bucket: self.bucket, history: self.history@ }
    }
}

impl View for RegretEntry {
    type V = EntryModel;

    open spec fn view(&self) -> EntryModel {
        EntryModel { regrets: self.regrets@, cum_strategy: self.cum_strategy@, n_actions: self.n_actions }
    }
}

impl View for PreflopBlueprint {
    type V = BlueprintModel;

    open spec fn view(&self) -> BlueprintModel {
        BlueprintModel {
            entries: self.entries@.map_values(|e: (PreflopInfoKey, RegretEntry)| (e.0@, e.1@)),
            iterations: self.iterations,
            config: self.config@,
        }
    }
}

/// A fresh entry for `n` actions: all regrets and strategy sums zero (0.0 has
/// the bit pattern 0).
pub open spec fn zero_entry(n: usize) -> EntryModel {
    EntryModel {
        regrets: Seq::new(n as nat, |i: int| 0u32),
        cum_strategy: Seq::new(n as nat, |i: int| 0u32),
        n_actions: n,
    }
}

/// The position of key `k` in `es` (its last occurrence), -1 when absent.
pub open spec fn key_pos(es: Seq<(InfoKeyModel, EntryModel)>, k: InfoKeyModel) -> int
    decreases es.len(),
{
    if es.len() == 0 {
        -1
    } else if es.last().0 == k {
        es.len() - 1
    } else {
        key_pos(es.drop_last(), k)
    }
}

/// Map insertion on an entry list: replaces the value of an existing key in
/// place, appends a new key.
pub open spec fn insert_entry(es: Seq<(InfoKeyModel, EntryModel)>, k: InfoKeyModel, v: EntryModel) -> Seq<
    (InfoKeyModel, EntryModel),
> {
    if key_pos(es, k) >= 0 {
        es.update(key_pos(es, k), (k, v))
    } else {
        es.push((k, v))
    }
}

/// Inserting `recs` in order into an empty table (a later key replaces an earlier value).
pub open spec fn insert_all(recs: Seq<(InfoKeyModel, EntryModel)>) -> Seq<(InfoKeyModel, EntryModel)>
    decreases recs.len(),
{
    if recs.len() == 0 {
        Seq::empty()
    } else {
        insert_entry(insert_all(recs.drop_last()), recs.last().0, recs.last().1)
    }
}

/// No key occurs twice.
pub open spec fn distinct_keys(es: Seq<(InfoKeyModel, EntryModel)>) -> bool {
    forall|i: int, j: int| 0 <= i < j < es.len() ==> es[i].0 != es[j].0
}

impl BlueprintModel {
    /// Each key occurs once.
    pub open spec fn wf(self) -> bool {
        distinct_keys(self.entries)
    }

    /// The entry stored for `k`, if any.
    pub open spec fn lookup(self, k: InfoKeyModel) -> Option<EntryModel> {
        if key_pos(self.entries, k) >= 0 {
            Some(self.entries[key_pos(self.entries, k)].1)
        } else {
            None
        }
    }
}

// -------------------------------------------------------------------------
// File format
// -------------------------------------------------------------------------

pub open spec fn i32_bytes(x: i32) -> Seq<u8> {
    le_bytes((x as u32) as nat, 4)
}

pub open spec fn i32s_bytes(s: Seq<i32>) -> Seq<u8>
    decreases s.len(),
{
    if s.len() == 0 { Seq::empty() } else { i32s_bytes(s.drop_last()) + i32_bytes(s.last()) }
}

pub open spec fn u32s_bytes(s: Seq<u32>) -> Seq<u8>
    decreases s.len(),
{
    if s.len() == 0 { Seq::empty() } else { u32s_bytes(s.drop_last()) + le_bytes(s.last() as nat, 4) }
}

/// One raise depth: its number of sizes as one byte, then each size as a
/// little-endian `i32`.
pub open spec fn depth_bytes(sizes: Seq<i32>) -> Seq<u8> {
    seq![sizes.len() as u8] + i32s_bytes(sizes)
}

pub open spec fn depths_bytes(rs: Seq<Seq<i32>>) -> Seq<u8>
    decreases rs.len(),
{
    if rs.len() == 0 { Seq::empty() } else { depths_bytes(rs.drop_last()) + depth_bytes(rs.last()) }
}

/// The bet configuration: number of depths (one byte), the depths, SB limp
/// (one byte), SB open size (`i32`, -1 for none), minimum all-in depth (one byte).
pub open spec fn config_bytes(c: ConfigModel) -> Seq<u8> {
    seq![c.raise_sizes.len() as u8] + depths_bytes(c.raise_sizes) + seq![
        if c.sb_limp { 1u8 } else { 0u8 },
    ] + i32_bytes(
        match c.sb_open_size {
            Some(x) => x,
            None => -1i32,
        },
    ) + seq![c.min_allin_depth]
}

/// One entry: bucket (one byte), history length (`u16`), history bytes, number
/// of actions (`u16`), the regrets, then the strategy sums (32-bit patterns).
pub open spec fn record_bytes(r: (InfoKeyModel, EntryModel)) -> Seq<u8> {
    seq![r.0.bucket] + le_bytes((r.0.history.len() as u16) as nat, 2) + r.0.history + le_bytes(
        (r.1.n_actions as u16) as nat,
        2,
    ) + u32s_bytes(r.1.regrets) + u32s_bytes(r.1.cum_strategy)
}

pub open spec fn records_bytes(es: Seq<(InfoKeyModel, EntryModel)>) -> Seq<u8>
    decreases es.len(),
{
    if es.len() == 0 { Seq::empty() } else { records_bytes(es.drop_last()) + record_bytes(es.last()) }
}

/// The whole file: configuration, iterations (`u64`), number of entries
/// (`u64`), then the entries. All integers little-endian.
pub open spec fn blueprint_bytes(m: BlueprintModel) -> Seq<u8> {
    config_bytes(m.config) + le_bytes(m.iterations as nat, 8) + le_bytes((m.entries.len() as u64) as nat, 8)
        + records_bytes(m.entries)
}

// Reading: each reader takes the bytes and a position and gives the value read
// and the position after it, or `None` when the bytes run out.

pub open spec fn get_u8(b: Seq<u8>, pos: int) -> Option<(u8, int)> {
    if 0 <= pos < b.len() { Some((b[pos], pos + 1)) } else { None }
}

pub open spec fn get_le(b: Seq<u8>, pos: int, k: nat) -> Option<(nat, int)> {
    if 0 <= pos && pos + k <= b.len() {
        Some((le_value(b.subrange(pos, pos + k)), pos + k))
    } else {
        None
    }
}

pub open spec fn get_i32s(b: Seq<u8>, pos: int, n: nat) -> Option<(Seq<i32>, int)>
    decreases n,
{
    if n == 0 {
        Some((Seq::empty(), pos))
    } else {
        match get_i32s(b, pos, (n - 1) as nat) {
            Some((s, p)) => match get_le(b, p, 4) {
                Some((v, q)) => Some((s.push((v as u32) as i32), q)),
                None => None,
            },
            None => None,
        }
    }
}

pub open spec fn get_u32s(b: Seq<u8>, pos: int, n: nat) -> Option<(Seq<u32>, int)>
    decreases n,
{
    if n == 0 {
        Some((Seq::empty(), pos))
    } else {
        match get_u32s(b, pos, (n - 1) as nat) {
            Some((s, p)) => match get_le(b, p, 4) {
                Some((v, q)) => Some((s.push(v as u32), q)),
                None => None,
            },
            None => None,
        }
    }
}

pub open spec fn get_depth(b: Seq<u8>, pos: int) -> Option<(Seq<i32>, int)> {
    match get_u8(b, pos) {
        Some((n, p)) => get_i32s(b, p, n as nat),
        None => None,
    }
}

pub open spec fn get_depths(b: Seq<u8>, pos: int, n: nat) -> Option<(Seq<Seq<i32>>, int)>
    decreases n,
{
    if n == 0 {
        Some((Seq::empty(), pos))
    } else {
        match get_depths(b, pos, (n - 1) as nat) {
            Some((s, p)) => match get_depth(b, p) {
                Some((d, q)) => Some((s.push(d), q)),
                None => None,
            },
            None => None,
        }
    }
}

pub open spec fn get_config(b: Seq<u8>, pos: int) -> Option<(ConfigModel, int)> {
    match get_u8(b, pos) {
        Some((n, p1)) => match get_depths(b, p1, n as nat) {
            Some((rs, p2)) => match get_u8(b, p2) {
                Some((limp, p3)) => match get_le(b, p3, 4) {
                    Some((raw, p4)) => match get_u8(b, p4) {
                        Some((min_depth, p5)) => Some(
                            (
                                ConfigModel {
                                    raise_sizes: rs,
                                    sb_limp: limp != 0,
                                    sb_open_size: if ((raw as u32) as i32) < 0 {
                                        None
                                    } else {
                                        Some((raw as u32) as i32)
                                    },
                                    min_allin_depth: min_depth,
                                },
                                p5,
                            ),
                        ),
                        None => None,
                    },
                    None => None,
                },
                None => None,
            },
            None => None,
        },
        None => None,
    }
}

pub open spec fn get_record(b: Seq<u8>, pos: int) -> Option<((InfoKeyModel, EntryModel), int)> {
    match get_u8(b, pos) {
        Some((bucket, p1)) => match get_le(b, p1, 2) {
            Some((hlen, p2)) => if p2 + hlen <= b.len() {
                let history = b.subrange(p2, p2 + hlen);
                match get_le(b, p2 + hlen, 2) {
                    Some((n, p3)) => match get_u32s(b, p3, n) {
                        Some((regrets, p4)) => match get_u32s(b, p4, n) {
                            Some((cum, p5)) => Some(
                                (
                                    (
                                        InfoKeyModel { bucket, history },
                                        EntryModel { regrets, cum_strategy: cum, n_actions: n as usize },
                                    ),
                                    p5,
                                ),
                            ),
                            None => None,
                        },
                        None => None,
                    },
                    None => None,
                }
            } else {
                None
            },
            None => None,
        },
        None => None,
    }
}

pub open spec fn get_records(b: Seq<u8>, pos: int, n: nat) -> Option<(Seq<(InfoKeyModel, EntryModel)>, int)>
    decreases n,
{
    if n == 0 {
        Some((Seq::empty(), pos))
    } else {
        match get_records(b, pos, (n - 1) as nat) {
            Some((s, p)) => match get_record(b, p) {
                Some((r, q)) => Some((s.push(r), q)),
                None => None,
            },
            None => None,
        }
    }
}

/// The blueprint that the start of `b` holds, if the bytes do not run out;
/// bytes after it are ignored, and a later entry for a key replaces an earlier one.
pub open spec fn decode_bytes(b: Seq<u8>) -> Option<BlueprintModel> {
    match get_config(b, 0) {
        Some((config, p1)) => match get_le(b, p1, 8) {
            Some((iterations, p2)) => match get_le(b, p2, 8) {
                Some((count, p3)) => match get_records(b, p3, count) {
                    Some((recs, _p4)) => Some(
                        BlueprintModel { entries: insert_all(recs), iterations: iterations as u64, config },
                    ),
                    None => None,
                },
                None => None,
            },
            None => None,
        },
        None => None,
    }
}

/// Why a blueprint could not be read.
#[derive(Debug, Clone, Copy, PartialEq, Eq, Structural)]
pub enum DecodeError {
    /// The bytes ran out before the blueprint was complete.
    UnexpectedEof,
}

fn read_u8(b: &[u8], pos: usize) -> (r: Result<(u8, usize), DecodeError>)
    ensures
        match get_u8(b@, pos as int) {
            Some((v, q)) => r matches Ok((x, p)) && x == v && p as int == q,
            None => r is Err,
        },
{
    if pos < b.len() {
        Ok((b[pos], pos + 1))
    } else {
        Err(DecodeError::UnexpectedEof)
    }
}

fn read_u16(b: &[u8], pos: usize) -> (r: Result<(u16, usize), DecodeError>)
    ensures
        match get_le(b@, pos as int, 2) {
            Some((v, q)) => r matches Ok((x, p)) && x as nat == v && p as int == q,
            None => r is Err,
        },
{
    if pos <= b.len() && b.len() - pos >= 2 {
        Ok((le_read_u16(b, pos), pos + 2))
    } else {
        Err(DecodeError::UnexpectedEof)
    }
}

fn read_u32(b: &[u8], pos: usize) -> (r: Result<(u32, usize), DecodeError>)
    ensures
        match get_le(b@, pos as int, 4) {
            Some((v, q)) => r matches Ok((x, p)) && x as nat == v && p as int == q,
            None => r is Err,
        },
{
    if pos <= b.len() && b.len() - pos >= 4 {
        Ok((le_read_u32(b, pos), pos + 4))
    } else {
        Err(DecodeError::UnexpectedEof)
    }
}

fn read_u64(b: &[u8], pos: usize) -> (r: Result<(u64, usize), DecodeError>)
    ensures
        match get_le(b@, pos as int, 8) {
            Some((v, q)) => r matches Ok((x, p)) && x as nat == v && p as int == q,
            None => r is Err,
        },
{
    if pos <= b.len() && b.len() - pos >= 8 {
        Ok((le_read_u64(b, pos), pos + 8))
    } else {
        Err(DecodeError::UnexpectedEof)
    }
}

fn read_i32s(b: &[u8], pos: usize, n: usize) -> (r: Result<(Vec<i32>, usize), DecodeError>)
    ensures
        match get_i32s(b@, pos as int, n as nat) {
            Some((v, q)) => r matches Ok((x, p)) && x@ == v && p as int == q,
            None => r is Err,
        },
{
    let mut out: Vec<i32> = Vec::new();
    let mut p = pos;
    let mut i: usize = 0;
    while i < n
        invariant
            i <= n,
            get_i32s(b@, pos as int, i as nat) == Some((out@, p as int)),
        decreases n - i,
    {
        match read_u32(b, p) {
            Ok((v, q)) => {
                out.push(v as i32);
                p = q;
            },
            Err(e) => {
                assert(get_i32s(b@, pos as int, (i + 1) as nat) is None);
                assert forall|k: nat| k > i implies get_i32s(b@, pos as int, k) is None by {
                    lemma_get_i32s_none_up(b@, pos as int, (i + 1) as nat, k);
                }
                return Err(e);
            },
        }
        i += 1;
    }
    Ok((out, p))
}

/// Once the bytes run out, reading more values fails too.
proof fn lemma_get_i32s_none_up(b: Seq<u8>, pos: int, i: nat, k: nat)
    requires
        get_i32s(b, pos, i) is None,
        i <= k,
    ensures
        get_i32s(b, pos, k) is None,
    decreases k - i,
{
    if i < k {
        lemma_get_i32s_none_up(b, pos, i, (k - 1) as nat);
    }
}

fn read_u32s(b: &[u8], pos: usize, n: usize) -> (r: Result<(Vec<u32>, usize), DecodeError>)
    ensures
        match get_u32s(b@, pos as int, n as nat) {
            Some((v, q)) => r matches Ok((x, p)) && x@ == v && p as int == q,
            None => r is Err,
        },
{
    let mut out: Vec<u32> = Vec::new();
    let mut p = pos;
    let mut i: usize = 0;
    while i < n
        invariant
            i <= n,
            get_u32s(b@, pos as int, i as nat) == Some((out@, p as int)),
        decreases n - i,
    {
        match read_u32(b, p) {
            Ok((v, q)) => {
                out.push(v);
                p = q;
            },
            Err(e) => {
                proof { lemma_get_u32s_none_up(b@, pos as int, (i + 1) as nat, n as nat); }
                return Err(e);
            },
        }
        i += 1;
    }
    Ok((out, p))
}

proof fn lemma_get_u32s_none_up(b: Seq<u8>, pos: int, i: nat, k: nat)
    requires
        get_u32s(b, pos, i) is None,
        i <= k,
    ensures
        get_u32s(b, pos, k) is None,
    decreases k - i,
{
    if i < k {
        lemma_get_u32s_none_up(b, pos, i, (k - 1) as nat);
    }
}

proof fn lemma_get_depths_none_up(b: Seq<u8>, pos: int, i: nat, k: nat)
    requires
        get_depths(b, pos, i) is None,
        i <= k,
    ensures
        get_depths(b, pos, k) is None,
    decreases k - i,
{
    if i < k {
        lemma_get_depths_none_up(b, pos, i, (k - 1) as nat);
    }
}

proof fn lemma_get_records_none_up(b: Seq<u8>, pos: int, i: nat, k: nat)
    requires
        get_records(b, pos, i) is None,
        i <= k,
    ensures
        get_records(b, pos, k) is None,
    decreases k - i,
{
    if i < k {
        lemma_get_records_none_up(b, pos, i, (k - 1) as nat);
    }
}

fn read_depth(b: &[u8], pos: usize) -> (r: Result<(Vec<i32>, usize), DecodeError>)
    ensures
        match get_depth(b@, pos as int) {
            Some((v, q)) => r matches Ok((x, p)) && x@ == v && p as int == q,
            None => r is Err,
        },
{
    let (n, p) = match read_u8(b, pos) {
        Ok(v) => v,
        Err(e) => return Err(e),
    };
    read_i32s(b, p, n as usize)
}

fn read_config(b: &[u8], pos: usize) -> (r: Result<(PreflopBetConfig, usize), DecodeError>)
    ensures
        match get_config(b@, pos as int) {
            Some((c, q)) => r matches Ok((x, p)) && x@ == c && p as int == q,
            None => r is Err,
        },
{
    let (n, p1) = match read_u8(b, pos) {
        Ok(v) => v,
        Err(e) => return Err(e),
    };
    let mut raise_sizes: Vec<Vec<i32>> = Vec::new();
    let mut p = p1;
    let mut i: usize = 0;
    while i < n as usize
        invariant
            i <= n,
            get_u8(b@, pos as int) == Some((n, p1 as int)),
            get_depths(b@, p1 as int, i as nat) == Some((raise_sizes@.map_values(|v: Vec<i32>| v@), p as int)),
        decreases n - i,
    {
        match read_depth(b, p) {
            Ok((d, q)) => {
                let ghost before = raise_sizes@.map_values(|v: Vec<i32>| v@);
                raise_sizes.push(d);
                assert(raise_sizes@.map_values(|v: Vec<i32>| v@) =~= before.push(d@));
                p = q;
            },
            Err(e) => {
                proof { lemma_get_depths_none_up(b@, p1 as int, (i + 1) as nat, n as nat); }
                return Err(e);
            },
        }
        i += 1;
    }
    let (limp, p3) = match read_u8(b, p) {
        Ok(v) => v,
        Err(e) => return Err(e),
    };
    let (raw, p4) = match read_u32(b, p3) {
        Ok(v) => v,
        Err(e) => return Err(e),
    };
    let (min_depth, p5) = match read_u8(b, p4) {
        Ok(v) => v,
        Err(e) => return Err(e),
    };
    let raw_i = raw as i32;
    let sb_open_size = if raw_i < 0 { None } else { Some(raw_i) };
    let c = PreflopBetConfig { raise_sizes, sb_limp: limp != 0, sb_open_size, min_allin_depth: min_depth };
    Ok((c, p5))
}

fn read_bytes(b: &[u8], pos: usize, n: usize) -> (r: Result<(Vec<u8>, usize), DecodeError>)
    ensures
        if pos + n <= b@.len() {
            r matches Ok((x, p)) && x@ == b@.subrange(pos as int, pos + n) && p == pos + n
        } else {
            r is Err
        },
{
    if pos > b.len() || b.len() - pos < n {
        return Err(DecodeError::UnexpectedEof);
    }
    let mut out: Vec<u8> = Vec::new();
    let mut i: usize = 0;
    while i < n
        invariant
            i <= n,
            pos + n <= b.len(),
            out@ == b@.subrange(pos as int, pos + i),
        decreases n - i,
    {
        out.push(b[pos + i]);
        i += 1;
        assert(out@ =~= b@.subrange(pos as int, pos + i));
    }
    Ok((out, pos + n))
}

fn read_record(b: &[u8], pos: usize) -> (r: Result<((PreflopInfoKey, RegretEntry), usize), DecodeError>)
    ensures
        match get_record(b@, pos as int) {
            Some((v, q)) => r matches Ok((x, p)) && x.0@ == v.0 && x.1@ == v.1 && p as int == q,
            None => r is Err,
        },
{
    let (bucket, p1) = match read_u8(b, pos) {
        Ok(v) => v,
        Err(e) => return Err(e),
    };
    let (hlen, p2) = match read_u16(b, p1) {
        Ok(v) => v,
        Err(e) => return Err(e),
    };
    let (history, p3) = match read_bytes(b, p2, hlen as usize) {
        Ok(v) => v,
        Err(e) => return Err(e),
    };
    let (n, p4) = match read_u16(b, p3) {
        Ok(v) => v,
        Err(e) => return Err(e),
    };
    let (regrets, p5) = match read_u32s(b, p4, n as usize) {
        Ok(v) => v,
        Err(e) => return Err(e),
    };
    let (cum_strategy, p6) = match read_u32s(b, p5, n as usize) {
        Ok(v) => v,
        Err(e) => return Err(e),
    };
    let key = PreflopInfoKey { bucket, history };
    let entry = RegretEntry { regrets, cum_strategy, n_actions: n as usize };
    proof {
        assert(get_record(b@, pos as int) is Some);
        let (rec, _q) = get_record(b@, pos as int).unwrap();
        assert(key@ =~= rec.0);
        assert(entry@ =~= rec.1);
    }
    Ok(((key, entry), p6))
}

impl PreflopInfoKey {
    /// Whether two keys are the same: same bucket and same history.
    pub fn same_as(&self, other: &PreflopInfoKey) -> (r: bool)
        ensures
            r == (self@ == other@),
    {
        if self.bucket != other.bucket || self.history.len() != other.history.len() {
            return false;
        }
        let mut i: usize = 0;
        while i < self.history.len()
            invariant
                i <= self.history@.len(),
                self.history@.len() == other.history@.len(),
                forall|j: int| 0 <= j < i ==> self.history@[j] == other.history@[j],
            decreases self.history.len() - i,
        {
            if self.history[i] != other.history[i] {
                return false;
            }
            i += 1;
        }
        assert(self@ =~= other@);
        true
    }

    /// A copy of this key.
    pub fn duplicate(&self) -> (r: PreflopInfoKey)
        ensures
            r@ == self@,
    {
        let mut history: Vec<u8> = Vec::new();
        let mut i: usize = 0;
        while i < self.history.len()
            invariant
                i <= self.history@.len(),
                history@ == self.history@.take(i as int),
            decreases self.history.len() - i,
        {
            history.push(self.history[i]);
            i += 1;
            assert(history@ =~= self.history@.take(i as int));
        }
        assert(self.history@.take(self.history@.len() as int) =~= self.history@);
        let r = PreflopInfoKey { bucket: self.bucket, history };
        assert(r@ =~= self@);
        r
    }
}

impl RegretEntry {
    /// A fresh entry for `n_actions` actions, all values zero.
    pub fn new(n_actions: usize) -> (r: RegretEntry)
        ensures
            r@ == zero_entry(n_actions),
    {
        let mut regrets: Vec<u32> = Vec::new();
        let mut cum_strategy: Vec<u32> = Vec::new();
        let mut i: usize = 0;
        while i < n_actions
            invariant
                i <= n_actions,
                regrets@ == Seq::new(i as nat, |j: int| 0u32),
                cum_strategy@ == Seq::new(i as nat, |j: int| 0u32),
            decreases n_actions - i,
        {
            regrets.push(0);
            cum_strategy.push(0);
            i += 1;
            assert(regrets@ =~= Seq::new(i as nat, |j: int| 0u32));
            assert(cum_strategy@ =~= Seq::new(i as nat, |j: int| 0u32));
        }
        let r = RegretEntry { regrets, cum_strategy, n_actions };
        assert(r@ =~= zero_entry(n_actions));
        r
    }
}

/// The position of `key` in the table (its last occurrence), if present.
fn find_key(entries: &Vec<(PreflopInfoKey, RegretEntry)>, key: &PreflopInfoKey) -> (r: Option<usize>)
    ensures
        match r {
            Some(i) => key_pos(entries@.map_values(|e: (PreflopInfoKey, RegretEntry)| (e.0@, e.1@)), key@) == i,
            None => key_pos(entries@.map_values(|e: (PreflopInfoKey, RegretEntry)| (e.0@, e.1@)), key@) == -1,
        },
{
    let ghost es = entries@.map_values(|e: (PreflopInfoKey, RegretEntry)| (e.0@, e.1@));
    let mut i: usize = entries.len();
    assert(es.take(i as int) =~= es);
    while i > 0
        invariant
            i <= entries@.len(),
            es == entries@.map_values(|e: (PreflopInfoKey, RegretEntry)| (e.0@, e.1@)),
            key_pos(es, key@) == key_pos(es.take(i as int), key@),
        decreases i,
    {
        let ghost t = es.take(i as int);
        assert(t.drop_last() =~= es.take(i - 1));
        if entries[i - 1].0.same_as(key) {
            return Some(i - 1);
        }
        i -= 1;
    }
    assert(es.take(0) =~= Seq::<(InfoKeyModel, EntryModel)>::empty());
    None
}

/// Inserts `(key, entry)`: replaces the entry of an existing key, appends a new one.
fn insert_into(entries: &mut Vec<(PreflopInfoKey, RegretEntry)>, key: PreflopInfoKey, entry: RegretEntry)
    ensures
        final(entries)@.map_values(|e: (PreflopInfoKey, RegretEntry)| (e.0@, e.1@)) == insert_entry(
            old(entries)@.map_values(|e: (PreflopInfoKey, RegretEntry)| (e.0@, e.1@)),
            key@,
            entry@,
        ),
{
    let ghost es = entries@.map_values(|e: (PreflopInfoKey, RegretEntry)| (e.0@, e.1@));
    let ghost k = key@;
    let ghost v = entry@;
    match find_key(entries, &key) {
        Some(i) => {
            proof { lemma_key_pos_range(es, k); }
            entries.set(i, (key, entry));
            assert(entries@.map_values(|e: (PreflopInfoKey, RegretEntry)| (e.0@, e.1@)) =~= es.update(i as int, (k, v)));
        },
        None => {
            entries.push((key, entry));
            assert(entries@.map_values(|e: (PreflopInfoKey, RegretEntry)| (e.0@, e.1@)) =~= es.push((k, v)));
        },
    }
}

/// A key found in a table is at a valid position and holds that key.
pub proof fn lemma_key_pos_range(es: Seq<(InfoKeyModel, EntryModel)>, k: InfoKeyModel)
    ensures
        -1 <= key_pos(es, k) < es.len(),
        key_pos(es, k) >= 0 ==> es[key_pos(es, k)].0 == k,
        key_pos(es, k) == -1 ==> forall|i: int| 0 <= i < es.len() ==> es[i].0 != k,
    decreases es.len(),
{
    if es.len() > 0 {
        lemma_key_pos_range(es.drop_last(), k);
        if es.last().0 != k {
            assert forall|i: int| 0 <= i < es.len() - 1 implies es[i] == es.drop_last()[i] by {}
        }
    }
}

impl PreflopBlueprint {
    /// An empty blueprint for `config`.
    pub fn new(config: PreflopBetConfig) -> (r: Self)
        ensures
            r@.entries == Seq::<(InfoKeyModel, EntryModel)>::empty(),
            r@.iterations == 0,
            r@.config == config@,
            r@.wf(),
    {
        let r = PreflopBlueprint { entries: Vec::new(), iterations: 0, config };
        assert(r@.entries =~= Seq::<(InfoKeyModel, EntryModel)>::empty());
        r
    }

    /// Number of information sets stored.
    pub fn len(&self) -> (r: usize)
        ensures
            r == self@.entries.len(),
    {
        self.entries.len()
    }

    /// The entry stored for `key`, if any.
    pub fn get(&self, key: &PreflopInfoKey) -> (r: Option<&RegretEntry>)
        ensures
            match self@.lookup(key@) {
                Some(e) => r matches Some(x) && x@ == e,
                None => r is None,
            },
    {
        match find_key(&self.entries, key) {
            Some(i) => {
                proof { lemma_key_pos_range(self@.entries, key@); }
                Some(&self.entries[i].1)
            },
            None => None,
        }
    }

    /// The position of the entry for `key`, created with `n_actions` zero
    /// values when the key is new. An existing entry is left as it is.
    pub fn get_or_create(&mut self, key: &PreflopInfoKey, n_actions: usize) -> (r: usize)
        requires
            old(self)@.wf(),
        ensures
            final(self)@.wf(),
            final(self)@.iterations == old(self)@.iterations,
            final(self)@.config == old(self)@.config,
            r < final(self)@.entries.len(),
            final(self)@.entries[r as int].0 == key@,
            old(self)@.lookup(key@) is Some ==> final(self)@.entries == old(self)@.entries,
            old(self)@.lookup(key@) is None ==> final(self)@.entries == old(self)@.entries.push(
                (key@, zero_entry(n_actions)),
            ),
    {
        let ghost es = self@.entries;
        proof { lemma_key_pos_range(es, key@); }
        match find_key(&self.entries, key) {
            Some(i) => i,
            None => {
                let k = key.duplicate();
                let e = RegretEntry::new(n_actions);
                self.entries.push((k, e));
                assert(self@.entries =~= es.push((key@, zero_entry(n_actions))));
                assert forall|i: int, j: int| 0 <= i < j < self@.entries.len() implies self@.entries[i].0
                    != self@.entries[j].0 by {
                    if j == es.len() {
                        assert(es[i].0 != key@);
                    }
                }
                self.entries.len() - 1
            },
        }
    }

    /// Reads a blueprint from the start of `bytes` (the format of [`Self::save`]);
    /// bytes after it are ignored, and a later entry for a key replaces an
    /// earlier one. Fails when the bytes run out.
    pub fn load(bytes: &[u8]) -> (r: Result<PreflopBlueprint, DecodeError>)
        ensures
            match decode_bytes(bytes@) {
                Some(m) => r matches Ok(bp) && bp@ == m,
                None => r is Err,
            },
    {
        let b = bytes;
        let (config, p1) = match read_config(b, 0) {
            Ok(v) => v,
            Err(e) => return Err(e),
        };
        let (iterations, p2) = match read_u64(b, p1) {
            Ok(v) => v,
            Err(e) => return Err(e),
        };
        let (count, p3) = match read_u64(b, p2) {
            Ok(v) => v,
            Err(e) => return Err(e),
        };
        let mut entries: Vec<(PreflopInfoKey, RegretEntry)> = Vec::new();
        let ghost mut recs: Seq<(InfoKeyModel, EntryModel)> = Seq::empty();
        let mut p = p3;
        let mut i: u64 = 0;
        assert(entries@.map_values(|e: (PreflopInfoKey, RegretEntry)| (e.0@, e.1@)) =~= insert_all(recs));
        while i < count
            invariant
                i <= count,
                b@ == bytes@,
                get_config(b@, 0) == Some((config@, p1 as int)),
                get_le(b@, p1 as int, 8) == Some((iterations as nat, p2 as int)),
                get_le(b@, p2 as int, 8) == Some((count as nat, p3 as int)),
                get_records(b@, p3 as int, i as nat) == Some((recs, p as int)),
                entries@.map_values(|e: (PreflopInfoKey, RegretEntry)| (e.0@, e.1@)) == insert_all(recs),
            decreases count - i,
        {
            match read_record(b, p) {
                Ok((rec, q)) => {
                    let ghost r_model = (rec.0@, rec.1@);
                    insert_into(&mut entries, rec.0, rec.1);
                    proof {
                        let recs2 = recs.push(r_model);
                        assert(recs2.drop_last() =~= recs);
                        recs = recs2;
                    }
                    p = q;
                },
                Err(e) => {
                    proof { lemma_get_records_none_up(b@, p3 as int, (i + 1) as nat, count as nat); }
                    return Err(e);
                },
            }
            i += 1;
        }
        let bp = PreflopBlueprint { entries, iterations, config };
        assert(bp@ =~~= decode_bytes(bytes@).unwrap());
        Ok(bp)
    }
}

fn push_i32s(out: &mut Vec<u8>, s: &Vec<i32>)
    ensures
        final(out)@ == old(out)@ + i32s_bytes(s@),
{
    let mut i: usize = 0;
    assert(s@.take(0) =~= Seq::<i32>::empty());
    assert(out@ =~= old(out)@ + i32s_bytes(s@.take(0)));
    while i < s.len()
        invariant
            i <= s@.len(),
            out@ == old(out)@ + i32s_bytes(s@.take(i as int)),
        decreases s.len() - i,
    {
        let bytes = le_u32_bytes(s[i] as u32);
        push_bytes(out, &bytes);
        assert(s@.take(i + 1).drop_last() =~= s@.take(i as int));
        i += 1;
        assert(out@ =~= old(out)@ + i32s_bytes(s@.take(i as int)));
    }
    assert(s@.take(s@.len() as int) =~= s@);
}

fn push_u32s(out: &mut Vec<u8>, s: &Vec<u32>)
    ensures
        final(out)@ == old(out)@ + u32s_bytes(s@),
{
    let mut i: usize = 0;
    assert(s@.take(0) =~= Seq::<u32>::empty());
    assert(out@ =~= old(out)@ + u32s_bytes(s@.take(0)));
    while i < s.len()
        invariant
            i <= s@.len(),
            out@ == old(out)@ + u32s_bytes(s@.take(i as int)),
        decreases s.len() - i,
    {
        let bytes = le_u32_bytes(s[i]);
        push_bytes(out, &bytes);
        assert(s@.take(i + 1).drop_last() =~= s@.take(i as int));
        i += 1;
        assert(out@ =~= old(out)@ + u32s_bytes(s@.take(i as int)));
    }
    assert(s@.take(s@.len() as int) =~= s@);
}

fn push_config(out: &mut Vec<u8>, c: &PreflopBetConfig)
    ensures
        final(out)@ == old(out)@ + config_bytes(c@),
{
    let ghost rs = c@.raise_sizes;
    out.push(c.raise_sizes.len() as u8);
    let ghost start = out@;
    let mut d: usize = 0;
    assert(rs.take(0) =~= Seq::<Seq<i32>>::empty());
    assert(out@ =~= start + depths_bytes(rs.take(0)));
    while d < c.raise_sizes.len()
        invariant
            d <= c.raise_sizes@.len(),
            rs == c@.raise_sizes,
            out@ == start + depths_bytes(rs.take(d as int)),
        decreases c.raise_sizes.len() - d,
    {
        let sizes = &c.raise_sizes[d];
        out.push(sizes.len() as u8);
        push_i32s(out, sizes);
        assert(rs.take(d + 1).drop_last() =~= rs.take(d as int));
        assert(rs.take(d + 1).last() == sizes@);
        d += 1;
        assert(out@ =~= start + depths_bytes(rs.take(d as int)));
    }
    assert(rs.take(rs.len() as int) =~= rs);
    out.push(if c.sb_limp { 1u8 } else { 0u8 });
    let open: i32 = match c.sb_open_size {
        Some(x) => x,
        None => -1,
    };
    let bytes = le_u32_bytes(open as u32);
    push_bytes(out, &bytes);
    out.push(c.min_allin_depth);
    assert(out@ =~= old(out)@ + config_bytes(c@));
}

fn push_record(out: &mut Vec<u8>, key: &PreflopInfoKey, entry: &RegretEntry)
    ensures
        final(out)@ == old(out)@ + record_bytes((key@, entry@)),
{
    out.push(key.bucket);
    let hb = le_u16_bytes(key.history.len() as u16);
    push_bytes(out, &hb);
    push_bytes(out, key.history.as_slice());
    let nb = le_u16_bytes(entry.n_actions as u16);
    push_bytes(out, &nb);
    push_u32s(out, &entry.regrets);
    push_u32s(out, &entry.cum_strategy);
    assert(out@ =~= old(out)@ + record_bytes((key@, entry@)));
}

impl PreflopBlueprint {
    /// The blueprint in its binary file format: configuration, iterations,
    /// number of entries, then each entry in table order; integers little-endian.
    pub fn save(&self) -> (r: Vec<u8>)
        ensures
            r@ == blueprint_bytes(self@),
    {
        let mut out: Vec<u8> = Vec::new();
        push_config(&mut out, &self.config);
        let ib = le_u64_bytes(self.iterations);
        push_bytes(&mut out, &ib);
        let cb = le_u64_bytes(self.entries.len() as u64);
        push_bytes(&mut out, &cb);
        let ghost start = out@;
        let ghost es = self@.entries;
        let mut i: usize = 0;
        assert(es.take(0) =~= Seq::<(InfoKeyModel, EntryModel)>::empty());
        assert(out@ =~= start + records_bytes(es.take(0)));
        while i < self.entries.len()
            invariant
                i <= self.entries@.len(),
                es == self@.entries,
                out@ == start + records_bytes(es.take(i as int)),
            decreases self.entries.len() - i,
        {
            push_record(&mut out, &self.entries[i].0, &self.entries[i].1);
            assert(es.take(i + 1).drop_last() =~= es.take(i as int));
            i += 1;
            assert(out@ =~= start + records_bytes(es.take(i as int)));
        }
        assert(es.take(es.len() as int) =~= es);
        assert(out@ =~= blueprint_bytes(self@));
        out
    }
}

} // verus!
