//! Self-contained, fail-closed artifact contract for the exact-endgame
//! sweep. Shards bind their solver, reconstruction inputs, selection
//! policy, and row set; only a complete merged artifact is accepted.
//!
//! Floating-point fields (`exact`, `width`, `eval`, the solver's tolerances)
//! are carried as their IEEE-754 bit patterns: every check the contract
//! makes on them (finiteness, sign, equality with the formal profile, the
//! `{:016x}` rendering that enters the fingerprints) is a statement about
//! those bits.

use vstd::prelude::*;
use vstd::utf8::encode_utf8;
use vstd::wrapping::u64_specs;

use crate::sort::{
    lemma_lex_total_order, lemma_map_keeps_multiset, lemma_sort_forgets_order, lemma_stable_sorted_is_permutation,
    lemma_stable_sorted_is_sorted, lemma_strictly_sorted_unique, lex_le, pair_le, sort_byte_strings,
    sort_indices_by_pair, stable_sorted, strictly_sorted_by, total_preorder,
};
use crate::text::{
    dec_bytes, decimal, decimal_bytes, hex_bytes, hex_fixed, hex_fixed_bytes, push_char, push_decimal,
    push_hex_fixed,
};

verus! {

pub const FNV_OFFSET: u64 = 0xcbf2_9ce4_8422_2325;
pub const FNV_PRIME: u64 = 0x0000_0100_0000_01b3;

// ------------------------------------------------------------ fingerprints

/// One FNV-1a step.
pub open spec fn fnv_step(h: u64, b: u8) -> u64 {
    u64_specs::wrapping_mul(h ^ (b as u64), FNV_PRIME)
}

/// FNV-1a over `bytes`, continuing from `h`.
pub open spec fn fnv1a64(h: u64, bytes: Seq<u8>) -> u64
    decreases bytes.len(),
{
    if bytes.len() == 0 {
        h
    } else {
        fnv_step(fnv1a64(h, bytes.drop_last()), bytes.last())
    }
}

/// Little-endian bytes of a `u64`.
pub open spec fn le8(n: u64) -> Seq<u8> {
    Seq::new(8, |k: int| ((n >> ((8 * k) as u64)) & 0xff) as u8)
}

/// A length-prefixed part: the part's byte length (LE `u64`), then its bytes.
pub open spec fn part_hash(h: u64, bytes: Seq<u8>) -> u64 {
    fnv1a64(fnv1a64(h, le8(bytes.len() as u64)), bytes)
}

/// `part_hash` folded over `parts` in order.
pub open spec fn parts_hash(h: u64, parts: Seq<Seq<u8>>) -> u64
    decreases parts.len(),
{
    if parts.len() == 0 {
        h
    } else {
        part_hash(parts_hash(h, parts.drop_last()), parts.last())
    }
}

/// The bytes `record`, hashed as a part before every record's fields.
pub open spec fn record_marker() -> Seq<u8> {
    seq![114u8, 101u8, 99u8, 111u8, 114u8, 100u8]
}

/// Records folded in order: a `record` marker part, then each field.
pub open spec fn records_hash(h: u64, records: Seq<Seq<Seq<u8>>>) -> u64
    decreases records.len(),
{
    if records.len() == 0 {
        h
    } else {
        parts_hash(part_hash(records_hash(h, records.drop_last()), record_marker()), records.last())
    }
}

/// `fnv1a64:<16 hex digits>:<tag>`.
pub open spec fn fingerprint_text(hash: u64, tag: Seq<char>) -> Seq<char> {
    seq!['f', 'n', 'v', '1', 'a', '6', '4', ':'] + hex_fixed(hash as nat, 16) + seq![':'] + tag
}

/// The fingerprint of `parts` under `tag`: the tag's UTF-8 bytes are the
/// first part.
pub open spec fn tagged_fingerprint_spec(tag: Seq<char>, parts: Seq<Seq<u8>>) -> Seq<char> {
    fingerprint_text(parts_hash(part_hash(FNV_OFFSET, encode_utf8(tag)), parts), tag)
}

/// The fingerprint of a list of records under `tag`.
pub open spec fn records_fingerprint_spec(tag: Seq<char>, records: Seq<Seq<Seq<u8>>>) -> Seq<char> {
    fingerprint_text(records_hash(part_hash(FNV_OFFSET, encode_utf8(tag)), records), tag)
}

pub fn fnv1a64_update(hash: u64, bytes: &[u8]) -> (r: u64)
    ensures
        r == fnv1a64(hash, bytes@),
{
    let mut h = hash;
    let n = bytes.len();
    for i in 0..n
        invariant
            n == bytes@.len(),
            h == fnv1a64(hash, bytes@.take(i as int)),
    {
        assert(bytes@.take(i + 1).drop_last() =~= bytes@.take(i as int));
        h = (h ^ (bytes[i] as u64)).wrapping_mul(FNV_PRIME);
    }
    assert(bytes@.take(n as int) =~= bytes@);
    h
}

fn le_bytes(n: u64) -> (r: Vec<u8>)
    ensures
        r@ == le8(n),
{
    let mut out: Vec<u8> = Vec::new();
    for k in 0..8u64
        invariant
            out@.len() == k,
            forall|j: int| 0 <= j < k ==> out@[j] == ((n >> ((8 * j) as u64)) & 0xff) as u8,
    {
        let b = ((n >> (8 * k)) & 0xff) as u8;
        out.push(b);
    }
    assert(out@ =~= le8(n));
    out
}

pub fn fingerprint_part(hash: u64, bytes: &[u8]) -> (r: u64)
    ensures
        r == part_hash(hash, bytes@),
{
    let len = bytes.len() as u64;
    let prefix = le_bytes(len);
    let h = fnv1a64_update(hash, prefix.as_slice());
    fnv1a64_update(h, bytes)
}

fn fingerprint_string(hash: u64, tag: &str) -> (s: String)
    ensures
        s@ == fingerprint_text(hash, tag@),
{
    let mut s = String::new();
    push_char(&mut s, 'f');
    push_char(&mut s, 'n');
    push_char(&mut s, 'v');
    push_char(&mut s, '1');
    push_char(&mut s, 'a');
    push_char(&mut s, '6');
    push_char(&mut s, '4');
    push_char(&mut s, ':');
    push_hex_fixed(&mut s, hash, 16);
    push_char(&mut s, ':');
    s.append(tag);
    assert(s@ =~= fingerprint_text(hash, tag@));
    s
}

/// `fnv1a64:<hash>:<tag>` over the tag and then each part, every part
/// length-prefixed.
pub fn tagged_fingerprint(tag: &str, parts: &Vec<Vec<u8>>) -> (s: String)
    ensures
        s@ == tagged_fingerprint_spec(tag@, parts@.map_values(|p: Vec<u8>| p@)),
{
    let tag_bytes = tag.as_bytes();
    let mut hash = fingerprint_part(FNV_OFFSET, tag_bytes);
    let ghost h0 = hash;
    let ghost views = parts@.map_values(|p: Vec<u8>| p@);
    let n = parts.len();
    for i in 0..n
        invariant
            n == parts@.len(),
            views == parts@.map_values(|p: Vec<u8>| p@),
            hash == parts_hash(h0, views.take(i as int)),
    {
        assert(views.take(i + 1).drop_last() =~= views.take(i as int));
        hash = fingerprint_part(hash, parts[i].as_slice());
    }
    assert(views.take(n as int) =~= views);
    fingerprint_string(hash, tag)
}

/// The record-structured fingerprint: per record a `record` marker part,
/// then each field as a part.
pub fn records_fingerprint(tag: &str, records: &Vec<Vec<Vec<u8>>>) -> (s: String)
    ensures
        s@ == records_fingerprint_spec(
            tag@,
            records@.map_values(|r: Vec<Vec<u8>>| r@.map_values(|f: Vec<u8>| f@)),
        ),
{
    let tag_bytes = tag.as_bytes();
    let mut hash = fingerprint_part(FNV_OFFSET, tag_bytes);
    let ghost h0 = hash;
    let ghost views = records@.map_values(|r: Vec<Vec<u8>>| r@.map_values(|f: Vec<u8>| f@));
    let marker: Vec<u8> = vec![114u8, 101u8, 99u8, 111u8, 114u8, 100u8];
    assert(marker@ =~= record_marker());
    let n = records.len();
    for i in 0..n
        invariant
            n == records@.len(),
            marker@ == record_marker(),
            views == records@.map_values(|r: Vec<Vec<u8>>| r@.map_values(|f: Vec<u8>| f@)),
            hash == records_hash(h0, views.take(i as int)),
    {
        assert(views.take(i + 1).drop_last() =~= views.take(i as int));
        let record = &records[i];
        let ghost fields = views[i as int];
        hash = fingerprint_part(hash, marker.as_slice());
        let ghost hm = hash;
        let m = record.len();
        for j in 0..m
            invariant
                m == record@.len(),
                fields == record@.map_values(|f: Vec<u8>| f@),
                hash == parts_hash(hm, fields.take(j as int)),
        {
            assert(fields.take(j + 1).drop_last() =~= fields.take(j as int));
            hash = fingerprint_part(hash, record[j].as_slice());
        }
        assert(fields.take(m as int) =~= fields);
    }
    assert(views.take(n as int) =~= views);
    fingerprint_string(hash, tag)
}


// ------------------------------------------------------------ schema

pub const SHARD_SCHEMA: &'static str = "nc2000-m17e-exactness-shard-v3";
pub const MERGED_SCHEMA: &'static str = "nc2000-m17e-exactness-merged-v3";
pub const FORMAL_PROFILE: &'static str = "m17e-formal-sweep-v3";
pub const CUSTOM_PROFILE: &'static str = "m17e-custom-sweep-v3";

/// IEEE-754 bits of `0.02`.
pub const BITS_0_02: u64 = 0x3f94_7ae1_47ae_147b;
/// IEEE-754 bits of `0.1`.
pub const BITS_0_1: u64 = 0x3fb9_9999_9999_999a;

#[derive(Debug)]
pub struct RuntimeDataFingerprints {
    pub dex: String,
    pub meta_pool: String,
    pub community_rentals: String,
    pub learnsets: String,
}

/// Solver configuration; `eps_bits`, `descend_floor_bits` and
/// `threshold_radius_bits` are the IEEE-754 bits of the `f64` settings.
#[derive(Debug)]
pub struct SolverConfig {
    pub work_budget: usize,
    pub node_budget: usize,
    pub cell_cap: usize,
    pub eps_bits: u64,
    pub trial_depth: usize,
    pub descend_floor_bits: u64,
    pub dead_damage_quotient: bool,
    pub fold_terminal_nodes: bool,
    pub fold_closed_nodes: bool,
    pub monotone_stall_scheduling: bool,
    pub two_sided_resource_scheduling: bool,
    pub certified_action_pruning: bool,
    pub support_br_scheduling: bool,
    pub threshold_radius_bits: u64,
}

#[derive(Debug)]
pub struct SelectionConfig {
    pub hp_cap: u64,
    pub max_alive_per_side: usize,
    pub per_battle: usize,
    pub side_filter: Option<usize>,
    pub turn_filter: Option<u16>,
    pub decision_order: String,
    pub reconstruction_seed: u64,
}

#[derive(Debug)]
pub struct RunIdentity {
    pub profile: String,
    pub solver_build_fingerprint: String,
    pub generator_executable_fingerprint: String,
    pub runtime_data: RuntimeDataFingerprints,
    pub corpus_fingerprint: String,
    pub corpus_count: usize,
    pub solver: SolverConfig,
    pub selection: SelectionConfig,
}

/// One exact-equity row; `exact_bits`, `width_bits`, `eval_bits` are the
/// IEEE-754 bits of the `f64` values.
#[derive(Debug)]
pub struct Row {
    pub battle: usize,
    pub decision: usize,
    pub side: usize,
    pub turn: u16,
    pub human: String,
    pub exact_bits: u64,
    pub width_bits: u64,
    pub stop: u16,
    pub eval_bits: u64,
    pub alive0: usize,
    pub alive1: usize,
    pub total_hp: u64,
    pub state_key128: String,
    pub desc: String,
}

#[derive(Debug)]
pub struct RowSummary {
    pub row_count: usize,
    pub coordinate_fingerprint: String,
    pub state_fingerprint: String,
    pub row_fingerprint: String,
}

#[derive(Debug)]
pub struct ShardDescriptor {
    pub battle_lo: usize,
    pub battle_hi: usize,
    pub summary: RowSummary,
}

#[derive(Debug)]
pub struct ShardArtifact {
    pub schema: String,
    pub run: RunIdentity,
    pub shard: ShardDescriptor,
    pub rows: Vec<Row>,
}

#[derive(Debug)]
pub struct MergeInfo {
    pub shards: Vec<ShardDescriptor>,
    pub summary: RowSummary,
}

#[derive(Debug)]
pub struct MergedArtifact {
    pub schema: String,
    pub run: RunIdentity,
    pub merge: MergeInfo,
    pub rows: Vec<Row>,
}

impl SolverConfig {
    /// The formal sweep's solver settings.
    pub fn formal() -> (c: Self)
        ensures
            c.work_budget == 1_000_000,
            c.node_budget == 120_000,
            c.cell_cap == 4096,
            c.eps_bits == BITS_0_02,
            c.trial_depth == 24,
            c.descend_floor_bits == BITS_0_1,
            c.dead_damage_quotient && c.fold_terminal_nodes && c.fold_closed_nodes,
            c.monotone_stall_scheduling && c.two_sided_resource_scheduling,
            c.certified_action_pruning && c.support_br_scheduling,
            c.threshold_radius_bits == BITS_0_02,
    {
        SolverConfig {
            work_budget: 1_000_000,
            node_budget: 120_000,
            cell_cap: 4096,
            eps_bits: BITS_0_02,
            trial_depth: 24,
            descend_floor_bits: BITS_0_1,
            dead_damage_quotient: true,
            fold_terminal_nodes: true,
            fold_closed_nodes: true,
            monotone_stall_scheduling: true,
            two_sided_resource_scheduling: true,
            certified_action_pruning: true,
            support_br_scheduling: true,
            threshold_radius_bits: BITS_0_02,
        }
    }
}

impl SelectionConfig {
    /// The formal sweep's row selection.
    pub fn formal() -> (c: Self)
        ensures
            c.hp_cap == 150,
            c.max_alive_per_side == 2,
            c.per_battle == 2,
            c.side_filter is None,
            c.turn_filter is None,
            c.decision_order@ == "reverse"@,
            c.reconstruction_seed == 1,
    {
        SelectionConfig {
            hp_cap: 150,
            max_alive_per_side: 2,
            per_battle: 2,
            side_filter: None,
            turn_filter: None,
            decision_order: String::from_str("reverse"),
            reconstruction_seed: 1,
        }
    }
}

// ------------------------------------------------------------- summaries

pub open spec fn coord(r: Row) -> (usize, usize) {
    (r.battle, r.decision)
}

/// The fields of a row's coordinate record.
pub open spec fn coordinate_record(r: Row) -> Seq<Seq<u8>> {
    seq![
        dec_bytes(r.battle as nat),
        dec_bytes(r.decision as nat),
        dec_bytes(r.side as nat),
        dec_bytes(r.turn as nat),
    ]
}

/// The fields of a full row record (floats as 16 hex digits of their bits).
pub open spec fn row_record(r: Row) -> Seq<Seq<u8>> {
    seq![
        dec_bytes(r.battle as nat),
        dec_bytes(r.decision as nat),
        dec_bytes(r.side as nat),
        dec_bytes(r.turn as nat),
        encode_utf8(r.human@),
        hex_bytes(r.exact_bits as nat, 16),
        hex_bytes(r.width_bits as nat, 16),
        dec_bytes(r.stop as nat),
        hex_bytes(r.eval_bits as nat, 16),
        dec_bytes(r.alive0 as nat),
        dec_bytes(r.alive1 as nat),
        dec_bytes(r.total_hp as nat),
        encode_utf8(r.state_key128@),
        encode_utf8(r.desc@),
    ]
}

/// Row indices in stable `(battle, decision)` order.
pub open spec fn coordinate_order(rows: Seq<Row>) -> Seq<usize> {
    stable_sorted(
        Seq::new(rows.len(), |i: int| i as usize),
        |a: usize, b: usize|
            pair_le(
                rows.map_values(|r: Row| coord(r))[a as int],
                rows.map_values(|r: Row| coord(r))[b as int],
            ),
    )
}

pub open spec fn coordinate_fingerprint_of(rows: Seq<Row>) -> Seq<char> {
    records_fingerprint_spec(
        "m17e-coordinate-v1"@,
        coordinate_order(rows).map_values(|i: usize| coordinate_record(rows[i as int])),
    )
}

pub open spec fn state_fingerprint_of(rows: Seq<Row>) -> Seq<char> {
    records_fingerprint_spec(
        "m17e-state-v1"@,
        stable_sorted(
            rows.map_values(|r: Row| encode_utf8(r.state_key128@)),
            |a: Seq<u8>, b: Seq<u8>| lex_le(a, b),
        ).map_values(|k: Seq<u8>| seq![k]),
    )
}

pub open spec fn row_fingerprint_of(rows: Seq<Row>) -> Seq<char> {
    records_fingerprint_spec(
        "m17e-row-v1"@,
        coordinate_order(rows).map_values(|i: usize| row_record(rows[i as int])),
    )
}

/// `s` is the summary of `rows`: the row count and the coordinate, state
/// and row fingerprints (coordinate and row records in stable coordinate
/// order, state keys in sorted order).
pub open spec fn summarizes(s: RowSummary, rows: Seq<Row>) -> bool {
    &&& s.row_count == rows.len()
    &&& s.coordinate_fingerprint@ == coordinate_fingerprint_of(rows)
    &&& s.state_fingerprint@ == state_fingerprint_of(rows)
    &&& s.row_fingerprint@ == row_fingerprint_of(rows)
}

fn bytes_of(s: &String) -> (v: Vec<u8>)
    ensures
        v@ == encode_utf8(s@),
{
    s.as_str().as_bytes_vec()
}

fn coordinate_fields(r: &Row) -> (v: Vec<Vec<u8>>)
    ensures
        v@.map_values(|f: Vec<u8>| f@) == coordinate_record(*r),
{
    let mut v: Vec<Vec<u8>> = Vec::new();
    v.push(decimal_bytes(r.battle as u64));
    v.push(decimal_bytes(r.decision as u64));
    v.push(decimal_bytes(r.side as u64));
    v.push(decimal_bytes(r.turn as u64));
    assert(v@.map_values(|f: Vec<u8>| f@) =~= coordinate_record(*r));
    v
}

fn row_fields(r: &Row) -> (v: Vec<Vec<u8>>)
    ensures
        v@.map_values(|f: Vec<u8>| f@) == row_record(*r),
{
    let mut v: Vec<Vec<u8>> = Vec::new();
    v.push(decimal_bytes(r.battle as u64));
    v.push(decimal_bytes(r.decision as u64));
    v.push(decimal_bytes(r.side as u64));
    v.push(decimal_bytes(r.turn as u64));
    v.push(bytes_of(&r.human));
    v.push(hex_fixed_bytes(r.exact_bits, 16));
    v.push(hex_fixed_bytes(r.width_bits, 16));
    v.push(decimal_bytes(r.stop as u64));
    v.push(hex_fixed_bytes(r.eval_bits, 16));
    v.push(decimal_bytes(r.alive0 as u64));
    v.push(decimal_bytes(r.alive1 as u64));
    v.push(decimal_bytes(r.total_hp));
    v.push(bytes_of(&r.state_key128));
    v.push(bytes_of(&r.desc));
    assert(v@.map_values(|f: Vec<u8>| f@) =~= row_record(*r));
    v
}

/// The summary of the rows `rows[sel[0]], rows[sel[1]], ...`.
fn summarize_selected(rows: &[Row], sel: &Vec<usize>) -> (s: RowSummary)
    requires
        forall|k: int| 0 <= k < sel@.len() ==> sel@[k] < rows@.len(),
    ensures
        summarizes(s, sel@.map_values(|i: usize| rows@[i as int])),
{
    let ghost sub = sel@.map_values(|i: usize| rows@[i as int]);
    let m = sel.len();
    // coordinate keys and the identity order over the selection
    let mut keys: Vec<(usize, usize)> = Vec::new();
    let mut ident: Vec<usize> = Vec::new();
    for k in 0..m
        invariant
            m == sel@.len(),
            sub == sel@.map_values(|i: usize| rows@[i as int]),
            forall|q: int| 0 <= q < sel@.len() ==> sel@[q] < rows@.len(),
            keys@.len() == k,
            ident@.len() == k,
            forall|q: int| 0 <= q < k ==> keys@[q] == coord(sub[q]),
            forall|q: int| 0 <= q < k ==> ident@[q] == q,
    {
        let r = &rows[sel[k]];
        keys.push((r.battle, r.decision));
        ident.push(k);
    }
    proof {
        assert(keys@ =~= sub.map_values(|r: Row| coord(r)));
        assert(ident@ =~= Seq::new(sub.len(), |i: int| i as usize));
    }
    let order = sort_indices_by_pair(ident, &keys);
    proof {
        let f1 = |a: usize, b: usize| pair_le(keys@[a as int], keys@[b as int]);
        let f2 = |a: usize, b: usize|
            pair_le(
                sub.map_values(|r: Row| coord(r))[a as int],
                sub.map_values(|r: Row| coord(r))[b as int],
            );
        assert(f1 =~= f2);
        assert(order@ == coordinate_order(sub));
        let idn = Seq::new(sub.len(), |i: int| i as usize);
        crate::sort::lemma_stable_sorted_is_permutation(idn, f2);
        assert forall|q: int| 0 <= q < order@.len() implies order@[q] < m by {
            broadcast use vstd::seq_lib::group_to_multiset_ensures;

            assert(order@.contains(order@[q]));
            assert(idn.to_multiset().count(order@[q]) > 0);
            assert(idn.contains(order@[q]));
        }
    }
    // coordinate and full-row records in coordinate order
    let mut coord_recs: Vec<Vec<Vec<u8>>> = Vec::new();
    let mut row_recs: Vec<Vec<Vec<u8>>> = Vec::new();
    for k in 0..m
        invariant
            m == sel@.len(),
            m == order@.len(),
            sub == sel@.map_values(|i: usize| rows@[i as int]),
            forall|q: int| 0 <= q < sel@.len() ==> sel@[q] < rows@.len(),
            forall|q: int| 0 <= q < order@.len() ==> order@[q] < m,
            coord_recs@.len() == k,
            row_recs@.len() == k,
            forall|q: int|
                0 <= q < k ==> coord_recs@[q]@.map_values(|f: Vec<u8>| f@) == coordinate_record(
                    sub[order@[q] as int],
                ),
            forall|q: int|
                0 <= q < k ==> row_recs@[q]@.map_values(|f: Vec<u8>| f@) == row_record(
                    sub[order@[q] as int],
                ),
    {
        let r = &rows[sel[order[k]]];
        coord_recs.push(coordinate_fields(r));
        row_recs.push(row_fields(r));
    }
    proof {
        assert(coord_recs@.map_values(|r: Vec<Vec<u8>>| r@.map_values(|f: Vec<u8>| f@))
            =~= order@.map_values(|i: usize| coordinate_record(sub[i as int])));
        assert(row_recs@.map_values(|r: Vec<Vec<u8>>| r@.map_values(|f: Vec<u8>| f@))
            =~= order@.map_values(|i: usize| row_record(sub[i as int])));
    }
    let coordinate_fingerprint = records_fingerprint("m17e-coordinate-v1", &coord_recs);
    let row_fingerprint = records_fingerprint("m17e-row-v1", &row_recs);
    // state keys, sorted
    let mut states: Vec<Vec<u8>> = Vec::new();
    for k in 0..m
        invariant
            m == sel@.len(),
            sub == sel@.map_values(|i: usize| rows@[i as int]),
            forall|q: int| 0 <= q < sel@.len() ==> sel@[q] < rows@.len(),
            states@.len() == k,
            forall|q: int| 0 <= q < k ==> states@[q]@ == encode_utf8(sub[q].state_key128@),
    {
        states.push(bytes_of(&rows[sel[k]].state_key128));
    }
    proof {
        assert(states@.map_values(|x: Vec<u8>| x@) =~= sub.map_values(
            |r: Row| encode_utf8(r.state_key128@),
        ));
    }
    let mut sorted = sort_byte_strings(states);
    let ghost sorted_view = sorted@.map_values(|x: Vec<u8>| x@);
    let mut state_recs: Vec<Vec<Vec<u8>>> = Vec::new();
    let n = sorted.len();
    for k in 0..n
        invariant
            n == sorted_view.len(),
            sorted@.len() == n - k,
            forall|q: int| 0 <= q < n - k ==> sorted@[q]@ == sorted_view[q + k],
            state_recs@.len() == k,
            forall|q: int|
                0 <= q < k ==> state_recs@[q]@.map_values(|f: Vec<u8>| f@) == seq![
                    sorted_view[q],
                ],
    {
        let ghost before = sorted@;
        let key = sorted.remove(0);
        let mut rec: Vec<Vec<u8>> = Vec::new();
        rec.push(key);
        proof {
            assert(rec@.map_values(|f: Vec<u8>| f@) =~= seq![sorted_view[k as int]]);
            assert forall|q: int| 0 <= q < n - (k + 1) implies sorted@[q]@ == sorted_view[q + k
                + 1] by {
                assert(sorted@[q] == before[q + 1]);
            }
        }
        state_recs.push(rec);
    }
    proof {
        assert(state_recs@.map_values(|r: Vec<Vec<u8>>| r@.map_values(|f: Vec<u8>| f@))
            =~= sorted_view.map_values(|k: Seq<u8>| seq![k]));
    }
    let state_fingerprint = records_fingerprint("m17e-state-v1", &state_recs);
    RowSummary { row_count: m, coordinate_fingerprint, state_fingerprint, row_fingerprint }
}

/// Count and fingerprints of a row set; independent of the rows' input
/// order except among rows that share a coordinate.
pub fn summarize_rows(rows: &[Row]) -> (s: RowSummary)
    ensures
        summarizes(s, rows@),
{
    let n = rows.len();
    let mut sel: Vec<usize> = Vec::new();
    for k in 0..n
        invariant
            n == rows@.len(),
            sel@.len() == k,
            forall|q: int| 0 <= q < k ==> sel@[q] == q,
    {
        sel.push(k);
    }
    let s = summarize_selected(rows, &sel);
    assert(sel@.map_values(|i: usize| rows@[i as int]) =~= rows@);
    s
}


// ------------------------------------------------------------ validation

/// Which artifact a finding belongs to.
#[derive(Clone, Copy, Debug, PartialEq, Eq)]
pub enum Scope {
    Shard,
    Merged,
}

/// What is wrong with a single row.
#[derive(Clone, Copy, Debug, PartialEq, Eq)]
pub enum RowFault {
    /// `side` is not 0 or 1.
    Side,
    /// `exact`, `width` or `eval` is not finite, or `width` is negative.
    Numbers,
    /// `state_key128` is not 32 lowercase hex digits.
    StateKey,
}

/// A run-identity string that must not be empty.
#[derive(Clone, Copy, Debug, PartialEq, Eq)]
pub enum RunField {
    SolverBuildFingerprint,
    GeneratorExecutableFingerprint,
    CorpusFingerprint,
    Dex,
    MetaPool,
    CommunityRentals,
    Learnsets,
}

/// Why an artifact was refused.
#[derive(Debug)]
pub enum ArtifactError {
    Schema { scope: Scope, found: String },
    Profile { scope: Scope, found: String },
    EmptyField { scope: Scope, field: RunField },
    CorpusCount { scope: Scope },
    SolverConfig { scope: Scope },
    SelectionConfig { scope: Scope },
    Row { scope: Scope, index: usize, fault: RowFault },
    Unsorted { scope: Scope },
    DuplicateCoordinate { scope: Scope, battle: usize, decision: usize },
    DuplicateState { scope: Scope, key: String },
    ShardRange,
    ShardRowOutside { battle: usize, lo: usize, hi: usize },
    ShardSummary { declared: RowSummary, actual: RowSummary },
    NoShards,
    NoRows,
    ShardGap { index: usize, next: usize },
    RangeOverflow,
    Coverage { next: usize, corpus_count: usize },
    MergedRowOutside { battle: usize, corpus_count: usize },
    GlobalSummary { declared: RowSummary, actual: RowSummary },
    MergedShardSummary { index: usize, declared: RowSummary, actual: RowSummary },
}

/// The `f64` with these bits is finite.
pub open spec fn finite_bits(b: u64) -> bool {
    (b >> 52u64) & 0x7ff != 0x7ff
}

/// The `f64` with these bits is NaN.
pub open spec fn nan_bits(b: u64) -> bool {
    !finite_bits(b) && b & 0xf_ffff_ffff_ffff != 0
}

/// The `f64` with these bits compares `< 0.0`.
pub open spec fn below_zero_bits(b: u64) -> bool {
    !nan_bits(b) && b >> 63u64 == 1 && b & 0x7fff_ffff_ffff_ffff != 0
}

/// The `f64` with these bits compares `<= 0.0`.
pub open spec fn at_most_zero_bits(b: u64) -> bool {
    !nan_bits(b) && (b >> 63u64 == 1 || b & 0x7fff_ffff_ffff_ffff == 0)
}

pub open spec fn lower_hex_byte(c: u8) -> bool {
    (48 <= c <= 57) || (97 <= c <= 102)
}

/// 32 lowercase hex digits.
pub open spec fn state_key_ok(key: Seq<char>) -> bool {
    let b = encode_utf8(key);
    b.len() == 32 && forall|i: int| 0 <= i < b.len() ==> lower_hex_byte(#[trigger] b[i])
}

pub open spec fn row_fault(r: Row) -> Option<RowFault> {
    if r.side > 1 {
        Some(RowFault::Side)
    } else if !finite_bits(r.exact_bits) || !finite_bits(r.width_bits) || below_zero_bits(
        r.width_bits,
    ) || !finite_bits(r.eval_bits) {
        Some(RowFault::Numbers)
    } else if !state_key_ok(r.state_key128@) {
        Some(RowFault::StateKey)
    } else {
        None
    }
}

/// A run-identity check that failed, in check order.
#[derive(Clone, Copy, Debug, PartialEq, Eq)]
pub enum RunFault {
    Profile,
    Empty(RunField),
    CorpusCount,
    Solver,
    Selection,
}

pub open spec fn first_empty_field(run: RunIdentity) -> Option<RunField> {
    if run.solver_build_fingerprint@.len() == 0 {
        Some(RunField::SolverBuildFingerprint)
    } else if run.generator_executable_fingerprint@.len() == 0 {
        Some(RunField::GeneratorExecutableFingerprint)
    } else if run.corpus_fingerprint@.len() == 0 {
        Some(RunField::CorpusFingerprint)
    } else if run.runtime_data.dex@.len() == 0 {
        Some(RunField::Dex)
    } else if run.runtime_data.meta_pool@.len() == 0 {
        Some(RunField::MetaPool)
    } else if run.runtime_data.community_rentals@.len() == 0 {
        Some(RunField::CommunityRentals)
    } else if run.runtime_data.learnsets@.len() == 0 {
        Some(RunField::Learnsets)
    } else {
        None
    }
}

pub open spec fn solver_ok(c: SolverConfig) -> bool {
    &&& c.work_budget != 0
    &&& c.node_budget != 0
    &&& c.cell_cap != 0
    &&& c.trial_depth != 0
    &&& finite_bits(c.eps_bits) && !at_most_zero_bits(c.eps_bits)
    &&& finite_bits(c.descend_floor_bits) && !below_zero_bits(c.descend_floor_bits)
    &&& finite_bits(c.threshold_radius_bits) && !below_zero_bits(c.threshold_radius_bits)
}

pub open spec fn selection_ok(c: SelectionConfig) -> bool {
    &&& c.hp_cap != 0
    &&& c.max_alive_per_side != 0
    &&& c.per_battle != 0
    &&& !(c.side_filter matches Some(side) && side > 1)
    &&& c.decision_order@ == "reverse"@
}

pub open spec fn run_fault(run: RunIdentity) -> Option<RunFault> {
    if !(run.profile@ == FORMAL_PROFILE@ || run.profile@ == CUSTOM_PROFILE@) {
        Some(RunFault::Profile)
    } else if first_empty_field(run) is Some {
        Some(RunFault::Empty(first_empty_field(run).unwrap()))
    } else if run.corpus_count == 0 {
        Some(RunFault::CorpusCount)
    } else if !solver_ok(run.solver) {
        Some(RunFault::Solver)
    } else if !selection_ok(run.selection) {
        Some(RunFault::Selection)
    } else {
        None
    }
}

/// `e` reports run fault `f` of `run` in `scope`.
pub open spec fn reports_run_fault(e: ArtifactError, scope: Scope, run: RunIdentity, f: RunFault) -> bool {
    match f {
        RunFault::Profile => e matches ArtifactError::Profile { scope: s, found } && s == scope
            && found@ == run.profile@,
        RunFault::Empty(field) => e == ArtifactError::EmptyField { scope, field },
        RunFault::CorpusCount => e == ArtifactError::CorpusCount { scope },
        RunFault::Solver => e == ArtifactError::SolverConfig { scope },
        RunFault::Selection => e == ArtifactError::SelectionConfig { scope },
    }
}

/// A row-list check that failed at one row, in check order.
#[derive(Clone, Copy, Debug, PartialEq, Eq)]
pub enum RowProblem {
    Clean,
    Fault(RowFault),
    Unsorted,
    DuplicateCoordinate,
    DuplicateState,
}

pub open spec fn pair_lt(a: (usize, usize), b: (usize, usize)) -> bool {
    a.0 < b.0 || (a.0 == b.0 && a.1 < b.1)
}

/// What is wrong with row `i` given the rows before it.
pub open spec fn row_problem(rows: Seq<Row>, i: int, require_sorted: bool) -> RowProblem {
    if row_fault(rows[i]) is Some {
        RowProblem::Fault(row_fault(rows[i]).unwrap())
    } else if require_sorted && i > 0 && !pair_lt(coord(rows[i - 1]), coord(rows[i])) {
        RowProblem::Unsorted
    } else if exists|j: int| 0 <= j < i && coord(#[trigger] rows[j]) == coord(rows[i]) {
        RowProblem::DuplicateCoordinate
    } else if exists|j: int| 0 <= j < i && (#[trigger] rows[j]).state_key128@ == rows[i].state_key128@ {
        RowProblem::DuplicateState
    } else {
        RowProblem::Clean
    }
}

pub open spec fn rows_clean_upto(rows: Seq<Row>, require_sorted: bool, k: int) -> bool {
    forall|i: int| 0 <= i < k ==> #[trigger] row_problem(rows, i, require_sorted) == RowProblem::Clean
}

pub open spec fn rows_clean(rows: Seq<Row>, require_sorted: bool) -> bool {
    rows_clean_upto(rows, require_sorted, rows.len() as int)
}

/// `e` reports the problem of row `i`.
pub open spec fn reports_row_problem(e: ArtifactError, scope: Scope, rows: Seq<Row>, i: int, p: RowProblem) -> bool {
    match p {
        RowProblem::Fault(fault) => e == ArtifactError::Row { scope, index: i as usize, fault },
        RowProblem::Unsorted => e == ArtifactError::Unsorted { scope },
        RowProblem::DuplicateCoordinate => e == ArtifactError::DuplicateCoordinate {
            scope,
            battle: rows[i].battle,
            decision: rows[i].decision,
        },
        RowProblem::DuplicateState => e matches ArtifactError::DuplicateState { scope: s, key }
            && s == scope && key@ == rows[i].state_key128@,
        RowProblem::Clean => false,
    }
}

/// `e` reports the first problem among `rows`.
pub open spec fn reports_rows(e: ArtifactError, scope: Scope, rows: Seq<Row>, require_sorted: bool) -> bool {
    exists|i: int|
        0 <= i < rows.len() && rows_clean_upto(rows, require_sorted, i) && #[trigger] row_problem(
            rows,
            i,
            require_sorted,
        ) != RowProblem::Clean && reports_row_problem(
            e,
            scope,
            rows,
            i,
            row_problem(rows, i, require_sorted),
        )
}

fn state_key_is_lower_hex(key: &String) -> (r: bool)
    ensures
        r == state_key_ok(key@),
{
    let b = bytes_of(key);
    if b.len() != 32 {
        return false;
    }
    for i in 0..32usize
        invariant
            b@.len() == 32,
            b@ == encode_utf8(key@),
            forall|j: int| 0 <= j < i ==> lower_hex_byte(#[trigger] b@[j]),
    {
        let c = b[i];
        if !((48 <= c && c <= 57) || (97 <= c && c <= 102)) {
            return false;
        }
    }
    true
}

fn check_row(r: &Row) -> (f: Option<RowFault>)
    ensures
        f == row_fault(*r),
{
    if r.side > 1 {
        return Some(RowFault::Side);
    }
    let finite = |b: u64| -> (x: bool)
        ensures
            x == finite_bits(b),
        { (b >> 52) & 0x7ff != 0x7ff };
    let negative = r.width_bits >> 63 == 1 && r.width_bits & 0x7fff_ffff_ffff_ffff != 0;
    if !finite(r.exact_bits) || !finite(r.width_bits) || negative || !finite(r.eval_bits) {
        return Some(RowFault::Numbers);
    }
    if !state_key_is_lower_hex(&r.state_key128) {
        return Some(RowFault::StateKey);
    }
    None
}

fn clone_text(s: &String) -> (r: String)
    ensures
        r@ == s@,
{
    s.clone()
}

fn is_blank(s: &String) -> (r: bool)
    ensures
        r == (s@.len() == 0),
{
    s.as_str().unicode_len() == 0
}

/// The run identity's own checks, in order: profile, non-empty identity
/// strings, positive corpus count, solver numbers, selection settings.
pub fn validate_run_identity(run: &RunIdentity, scope: Scope) -> (r: Result<(), ArtifactError>)
    ensures
        match run_fault(*run) {
            None => r is Ok,
            Some(f) => r matches Err(e) && reports_run_fault(e, scope, *run, f),
        },
{
    let p = run.profile.as_str();
    if !(crate::text::same_text(p, FORMAL_PROFILE) || crate::text::same_text(p, CUSTOM_PROFILE)) {
        return Err(ArtifactError::Profile { scope, found: clone_text(&run.profile) });
    }
    if is_blank(&run.solver_build_fingerprint) {
        return Err(ArtifactError::EmptyField { scope, field: RunField::SolverBuildFingerprint });
    }
    if is_blank(&run.generator_executable_fingerprint) {
        return Err(
            ArtifactError::EmptyField { scope, field: RunField::GeneratorExecutableFingerprint },
        );
    }
    if is_blank(&run.corpus_fingerprint) {
        return Err(ArtifactError::EmptyField { scope, field: RunField::CorpusFingerprint });
    }
    if is_blank(&run.runtime_data.dex) {
        return Err(ArtifactError::EmptyField { scope, field: RunField::Dex });
    }
    if is_blank(&run.runtime_data.meta_pool) {
        return Err(ArtifactError::EmptyField { scope, field: RunField::MetaPool });
    }
    if is_blank(&run.runtime_data.community_rentals) {
        return Err(ArtifactError::EmptyField { scope, field: RunField::CommunityRentals });
    }
    if is_blank(&run.runtime_data.learnsets) {
        return Err(ArtifactError::EmptyField { scope, field: RunField::Learnsets });
    }
    if run.corpus_count == 0 {
        return Err(ArtifactError::CorpusCount { scope });
    }
    let c = &run.solver;
    let eps = c.eps_bits;
    let floor = c.descend_floor_bits;
    let radius = c.threshold_radius_bits;
    let mag: u64 = 0x7fff_ffff_ffff_ffff;
    let eps_ok = (eps >> 52) & 0x7ff != 0x7ff && !(eps >> 63 == 1 || eps & mag == 0);
    let floor_ok = (floor >> 52) & 0x7ff != 0x7ff && !(floor >> 63 == 1 && floor & mag != 0);
    let radius_ok = (radius >> 52) & 0x7ff != 0x7ff && !(radius >> 63 == 1 && radius & mag != 0);
    if c.work_budget == 0 || c.node_budget == 0 || c.cell_cap == 0 || c.trial_depth == 0 || !eps_ok
        || !floor_ok || !radius_ok {
        return Err(ArtifactError::SolverConfig { scope });
    }
    let sel = &run.selection;
    let side_bad = match sel.side_filter {
        Some(side) => side > 1,
        None => false,
    };
    if sel.hp_cap == 0 || sel.max_alive_per_side == 0 || sel.per_battle == 0 || side_bad
        || !crate::text::same_text(sel.decision_order.as_str(), "reverse") {
        return Err(ArtifactError::SelectionConfig { scope });
    }
    Ok(())
}


/// Every row is well formed; no coordinate and no state key repeats; with
/// `require_sorted`, coordinates strictly increase. The first offending
/// row (in order) is reported.
#[verifier::loop_isolation(false)]
pub fn validate_unique_rows(rows: &[Row], scope: Scope, require_sorted: bool) -> (r: Result<
    (),
    ArtifactError,
>)
    ensures
        r is Ok <==> rows_clean(rows@, require_sorted),
        r matches Err(e) ==> reports_rows(e, scope, rows@, require_sorted),
{
    let n = rows.len();
    for i in 0..n
        invariant
            n == rows@.len(),
            rows_clean_upto(rows@, require_sorted, i as int),
    {
        let row = &rows[i];
        let ghost p = row_problem(rows@, i as int, require_sorted);
        if let Some(fault) = check_row(row) {
            assert(reports_row_problem(ArtifactError::Row { scope, index: i, fault }, scope, rows@, i as int, p));
            return Err(ArtifactError::Row { scope, index: i, fault });
        }
        if require_sorted && i > 0 {
            let prev = &rows[i - 1];
            let ordered = prev.battle < row.battle || (prev.battle == row.battle && prev.decision < row.decision);
            if !ordered {
                assert(reports_row_problem(ArtifactError::Unsorted { scope }, scope, rows@, i as int, p));
                return Err(ArtifactError::Unsorted { scope });
            }
        }
        for j in 0..i
            invariant
                n == rows@.len(),
                i < n,
                forall|q: int| 0 <= q < j ==> coord(#[trigger] rows@[q]) != coord(rows@[i as int]),
        {
            if rows[j].battle == row.battle && rows[j].decision == row.decision {
                let e = ArtifactError::DuplicateCoordinate { scope, battle: row.battle, decision: row.decision };
                assert(reports_row_problem(e, scope, rows@, i as int, p));
                return Err(e);
            }
        }
        for j in 0..i
            invariant
                n == rows@.len(),
                i < n,
                forall|q: int| 0 <= q < j ==> (#[trigger] rows@[q]).state_key128@ != rows@[i as int].state_key128@,
        {
            if crate::text::same_text(rows[j].state_key128.as_str(), row.state_key128.as_str()) {
                let e = ArtifactError::DuplicateState { scope, key: clone_text(&row.state_key128) };
                assert(reports_row_problem(e, scope, rows@, i as int, p));
                return Err(e);
            }
        }
        assert(p == RowProblem::Clean);
    }
    Ok(())
}

/// Rows whose battle lies in `lo..=hi`, in their original order.
pub open spec fn rows_in(rows: Seq<Row>, lo: usize, hi: usize) -> Seq<Row>
    decreases rows.len(),
{
    if rows.len() == 0 {
        rows
    } else if lo <= rows.last().battle <= hi {
        rows_in(rows.drop_last(), lo, hi).push(rows.last())
    } else {
        rows_in(rows.drop_last(), lo, hi)
    }
}

/// Index of the first row whose battle is outside `lo..=hi`, if any.
pub open spec fn first_outside(rows: Seq<Row>, lo: usize, hi: usize, i: int) -> bool {
    &&& 0 <= i < rows.len()
    &&& !(lo <= rows[i].battle <= hi)
    &&& forall|j: int| 0 <= j < i ==> lo <= (#[trigger] rows[j]).battle <= hi
}

/// `d` and `a` hold the same summary values.
pub open spec fn same_summary(d: RowSummary, a: RowSummary) -> bool {
    &&& d.row_count == a.row_count
    &&& d.coordinate_fingerprint@ == a.coordinate_fingerprint@
    &&& d.state_fingerprint@ == a.state_fingerprint@
    &&& d.row_fingerprint@ == a.row_fingerprint@
}

fn clone_summary(s: &RowSummary) -> (r: RowSummary)
    ensures
        same_summary(r, *s),
{
    RowSummary {
        row_count: s.row_count,
        coordinate_fingerprint: clone_text(&s.coordinate_fingerprint),
        state_fingerprint: clone_text(&s.state_fingerprint),
        row_fingerprint: clone_text(&s.row_fingerprint),
    }
}

fn summaries_equal(a: &RowSummary, b: &RowSummary) -> (r: bool)
    ensures
        r == same_summary(*a, *b),
{
    a.row_count == b.row_count && crate::text::same_text(
        a.coordinate_fingerprint.as_str(),
        b.coordinate_fingerprint.as_str(),
    ) && crate::text::same_text(a.state_fingerprint.as_str(), b.state_fingerprint.as_str())
        && crate::text::same_text(a.row_fingerprint.as_str(), b.row_fingerprint.as_str())
}

/// `e` reports that `declared` is not the summary of `rows`.
pub open spec fn reports_mismatch(declared_in_e: RowSummary, actual_in_e: RowSummary, declared: RowSummary, rows: Seq<Row>) -> bool {
    same_summary(declared_in_e, declared) && summarizes(actual_in_e, rows)
}

/// The verdict on a shard artifact: `r` is what `validate_shard` must
/// return, checks taken in order.
pub open spec fn shard_verdict(a: ShardArtifact, r: Result<(), ArtifactError>) -> bool {
    let lo = a.shard.battle_lo;
    let hi = a.shard.battle_hi;
    let rows = a.rows@;
    if a.schema@ != SHARD_SCHEMA@ {
        r matches Err(ArtifactError::Schema { scope, found }) && scope == Scope::Shard && found@
            == a.schema@
    } else if run_fault(a.run) is Some {
        r matches Err(e) && reports_run_fault(e, Scope::Shard, a.run, run_fault(a.run).unwrap())
    } else if lo > hi || hi >= a.run.corpus_count {
        r matches Err(ArtifactError::ShardRange)
    } else if !rows_clean(rows, false) {
        r matches Err(e) && reports_rows(e, Scope::Shard, rows, false)
    } else if exists|i: int| first_outside(rows, lo, hi, i) {
        r matches Err(ArtifactError::ShardRowOutside { battle, lo: l, hi: h }) && l == lo && h
            == hi && exists|i: int| first_outside(rows, lo, hi, i) && rows[i].battle == battle
    } else if !summarizes(a.shard.summary, rows) {
        r matches Err(ArtifactError::ShardSummary { declared, actual }) && reports_mismatch(
            declared,
            actual,
            a.shard.summary,
            rows,
        )
    } else {
        r is Ok
    }
}

/// Shard acceptance: schema, run identity, the battle range inside the
/// corpus, well-formed unique rows, every row inside the range, and the
/// declared summary equal to the rows' summary.
#[verifier::loop_isolation(false)]
pub fn validate_shard(artifact: &ShardArtifact) -> (r: Result<(), ArtifactError>)
    ensures
        shard_verdict(*artifact, r),
        r is Ok ==> artifact.shard.summary.row_count == artifact.rows@.len()
            && artifact.shard.summary.coordinate_fingerprint@ == coordinate_fingerprint_of(artifact.rows@)
            && artifact.shard.summary.state_fingerprint@ == state_fingerprint_of(artifact.rows@)
            && artifact.shard.summary.row_fingerprint@ == row_fingerprint_of(artifact.rows@),
{
    if !crate::text::same_text(artifact.schema.as_str(), SHARD_SCHEMA) {
        return Err(ArtifactError::Schema { scope: Scope::Shard, found: clone_text(&artifact.schema) });
    }
    validate_run_identity(&artifact.run, Scope::Shard)?;
    let lo = artifact.shard.battle_lo;
    let hi = artifact.shard.battle_hi;
    if lo > hi || hi >= artifact.run.corpus_count {
        return Err(ArtifactError::ShardRange);
    }
    validate_unique_rows(artifact.rows.as_slice(), Scope::Shard, false)?;
    let n = artifact.rows.len();
    for i in 0..n
        invariant
            n == artifact.rows@.len(),
            forall|j: int| 0 <= j < i ==> lo <= (#[trigger] artifact.rows@[j]).battle <= hi,
    {
        let b = artifact.rows[i].battle;
        if b < lo || b > hi {
            assert(first_outside(artifact.rows@, lo, hi, i as int) && artifact.rows@[i as int].battle == b);
            return Err(ArtifactError::ShardRowOutside { battle: b, lo, hi });
        }
    }
    assert(!exists|i: int| first_outside(artifact.rows@, lo, hi, i));
    let actual = summarize_rows(artifact.rows.as_slice());
    if !summaries_equal(&actual, &artifact.shard.summary) {
        let declared = clone_summary(&artifact.shard.summary);
        return Err(ArtifactError::ShardSummary { declared, actual });
    }
    Ok(())
}


/// Where shard `k` must start: 0 for the first, else one past the
/// previous shard's last battle.
pub open spec fn chain_start(shards: Seq<ShardDescriptor>, k: int) -> int {
    if k == 0 {
        0
    } else {
        shards[k - 1].battle_hi + 1
    }
}

/// Shard `k` continues the range, is non-empty, and its end can be
/// incremented.
pub open spec fn link_ok(shards: Seq<ShardDescriptor>, k: int) -> bool {
    &&& shards[k].battle_lo == chain_start(shards, k)
    &&& shards[k].battle_lo <= shards[k].battle_hi
    &&& shards[k].battle_hi < usize::MAX
}

pub open spec fn first_bad_link(shards: Seq<ShardDescriptor>, k: int) -> bool {
    &&& 0 <= k < shards.len()
    &&& forall|j: int| 0 <= j < k ==> #[trigger] link_ok(shards, j)
    &&& !link_ok(shards, k)
}

pub open spec fn first_beyond(rows: Seq<Row>, corpus_count: usize, i: int) -> bool {
    &&& 0 <= i < rows.len()
    &&& rows[i].battle >= corpus_count
    &&& forall|j: int| 0 <= j < i ==> (#[trigger] rows[j]).battle < corpus_count
}

pub open spec fn shard_rows_match(shards: Seq<ShardDescriptor>, rows: Seq<Row>, k: int) -> bool {
    summarizes(shards[k].summary, rows_in(rows, shards[k].battle_lo, shards[k].battle_hi))
}

pub open spec fn first_shard_mismatch(shards: Seq<ShardDescriptor>, rows: Seq<Row>, k: int) -> bool {
    &&& 0 <= k < shards.len()
    &&& forall|j: int| 0 <= j < k ==> #[trigger] shard_rows_match(shards, rows, j)
    &&& !shard_rows_match(shards, rows, k)
}

/// The verdict on a merged artifact, checks taken in order.
pub open spec fn merged_verdict(a: MergedArtifact, r: Result<(), ArtifactError>) -> bool {
    let shards = a.merge.shards@;
    let rows = a.rows@;
    let cc = a.run.corpus_count;
    if a.schema@ != MERGED_SCHEMA@ {
        r matches Err(ArtifactError::Schema { scope, found }) && scope == Scope::Merged && found@
            == a.schema@
    } else if run_fault(a.run) is Some {
        r matches Err(e) && reports_run_fault(e, Scope::Merged, a.run, run_fault(a.run).unwrap())
    } else if shards.len() == 0 {
        r matches Err(ArtifactError::NoShards)
    } else if rows.len() == 0 {
        r matches Err(ArtifactError::NoRows)
    } else if exists|k: int| first_bad_link(shards, k) {
        exists|k: int|
            #![trigger shards[k]]
            first_bad_link(shards, k) && if shards[k].battle_lo != chain_start(shards, k)
                || shards[k].battle_lo > shards[k].battle_hi {
                r == Err::<(), ArtifactError>(
                    ArtifactError::ShardGap { index: k as usize, next: chain_start(shards, k) as usize },
                )
            } else {
                r matches Err(ArtifactError::RangeOverflow)
            }
    } else if chain_start(shards, shards.len() as int) != cc {
        r == Err::<(), ArtifactError>(
            ArtifactError::Coverage {
                next: chain_start(shards, shards.len() as int) as usize,
                corpus_count: cc,
            },
        )
    } else if !rows_clean(rows, true) {
        r matches Err(e) && reports_rows(e, Scope::Merged, rows, true)
    } else if exists|i: int| first_beyond(rows, cc, i) {
        exists|i: int|
            #![trigger rows[i]]
            first_beyond(rows, cc, i) && r == Err::<(), ArtifactError>(
                ArtifactError::MergedRowOutside { battle: rows[i].battle, corpus_count: cc },
            )
    } else if !summarizes(a.merge.summary, rows) {
        r matches Err(ArtifactError::GlobalSummary { declared, actual }) && reports_mismatch(
            declared,
            actual,
            a.merge.summary,
            rows,
        )
    } else if exists|k: int| first_shard_mismatch(shards, rows, k) {
        exists|k: int|
            #![trigger shards[k]]
            first_shard_mismatch(shards, rows, k) && (r matches Err(
                ArtifactError::MergedShardSummary { index, declared, actual },
            ) && index == k && reports_mismatch(
                declared,
                actual,
                shards[k].summary,
                rows_in(rows, shards[k].battle_lo, shards[k].battle_hi),
            ))
    } else {
        r is Ok
    }
}

/// Merged acceptance: schema, run identity, at least one shard and one
/// row, shard ranges tiling `0..corpus_count` exactly, unique rows in
/// strictly increasing coordinate order inside the corpus, the declared
/// global summary, and each shard's declared summary over its rows.
#[verifier::loop_isolation(false)]
pub fn validate_merged(artifact: &MergedArtifact) -> (r: Result<(), ArtifactError>)
    ensures
        merged_verdict(*artifact, r),
{
    if !crate::text::same_text(artifact.schema.as_str(), MERGED_SCHEMA) {
        return Err(
            ArtifactError::Schema { scope: Scope::Merged, found: clone_text(&artifact.schema) },
        );
    }
    validate_run_identity(&artifact.run, Scope::Merged)?;
    let shards = &artifact.merge.shards;
    if shards.len() == 0 {
        return Err(ArtifactError::NoShards);
    }
    let rows = artifact.rows.as_slice();
    if rows.len() == 0 {
        return Err(ArtifactError::NoRows);
    }
    let ns = shards.len();
    let mut next: usize = 0;
    for k in 0..ns
        invariant
            ns == shards@.len(),
            forall|j: int| 0 <= j < k ==> #[trigger] link_ok(shards@, j),
            next == chain_start(shards@, k as int),
    {
        let shard = &shards[k];
        if shard.battle_lo != next || shard.battle_lo > shard.battle_hi {
            assert(first_bad_link(shards@, k as int));
            return Err(ArtifactError::ShardGap { index: k, next });
        }
        if shard.battle_hi == usize::MAX {
            assert(first_bad_link(shards@, k as int));
            return Err(ArtifactError::RangeOverflow);
        }
        next = shard.battle_hi + 1;
    }
    assert(!exists|k: int| first_bad_link(shards@, k));
    let cc = artifact.run.corpus_count;
    if next != cc {
        return Err(ArtifactError::Coverage { next, corpus_count: cc });
    }
    validate_unique_rows(rows, Scope::Merged, true)?;
    let n = rows.len();
    for i in 0..n
        invariant
            n == rows@.len(),
            forall|j: int| 0 <= j < i ==> (#[trigger] rows@[j]).battle < cc,
    {
        if rows[i].battle >= cc {
            assert(first_beyond(rows@, cc, i as int));
            return Err(ArtifactError::MergedRowOutside { battle: rows[i].battle, corpus_count: cc });
        }
    }
    assert(!exists|i: int| first_beyond(rows@, cc, i));
    let actual_global = summarize_rows(rows);
    if !summaries_equal(&actual_global, &artifact.merge.summary) {
        let declared = clone_summary(&artifact.merge.summary);
        return Err(ArtifactError::GlobalSummary { declared, actual: actual_global });
    }
    for k in 0..ns
        invariant
            ns == shards@.len(),
            n == rows@.len(),
            forall|j: int| 0 <= j < k ==> #[trigger] shard_rows_match(shards@, rows@, j),
    {
        let lo = shards[k].battle_lo;
        let hi = shards[k].battle_hi;
        let mut sel: Vec<usize> = Vec::new();
        for i in 0..n
            invariant
                n == rows@.len(),
                forall|q: int| 0 <= q < sel@.len() ==> sel@[q] < n,
                sel@.map_values(|x: usize| rows@[x as int]) == rows_in(rows@.take(i as int), lo, hi),
        {
            proof {
                assert(rows@.take(i + 1).drop_last() =~= rows@.take(i as int));
                assert(rows@.take(i + 1).last() == rows@[i as int]);
            }
            if lo <= rows[i].battle && rows[i].battle <= hi {
                let ghost before = sel@;
                sel.push(i);
                proof {
                    assert(sel@.map_values(|x: usize| rows@[x as int]) =~= before.map_values(
                        |x: usize| rows@[x as int],
                    ).push(rows@[i as int]));
                }
            }
        }
        proof {
            assert(rows@.take(n as int) =~= rows@);
        }
        let actual = summarize_selected(rows, &sel);
        if !summaries_equal(&actual, &shards[k].summary) {
            let declared = clone_summary(&shards[k].summary);
            assert(first_shard_mismatch(shards@, rows@, k as int));
            return Err(ArtifactError::MergedShardSummary { index: k, declared, actual });
        }
    }
    assert(!exists|k: int| first_shard_mismatch(shards@, rows@, k));
    Ok(())
}


// ---------------------------------------------------------------- extras

impl Row {
    pub fn coordinate(&self) -> (c: (usize, usize))
        ensures
            c == coord(*self),
    {
        (self.battle, self.decision)
    }
}

/// The formal profile's identity: `FORMAL_PROFILE`, `SolverConfig::formal()`
/// and `SelectionConfig::formal()` (float settings compared by value, which
/// for these nonzero, non-NaN constants is equality of bits).
pub open spec fn is_formal_run(run: RunIdentity) -> bool {
    let c = run.solver;
    let s = run.selection;
    &&& run.profile@ == FORMAL_PROFILE@
    &&& c.work_budget == 1_000_000 && c.node_budget == 120_000 && c.cell_cap == 4096
    &&& c.eps_bits == BITS_0_02 && c.trial_depth == 24 && c.descend_floor_bits == BITS_0_1
    &&& c.dead_damage_quotient && c.fold_terminal_nodes && c.fold_closed_nodes
    &&& c.monotone_stall_scheduling && c.two_sided_resource_scheduling
    &&& c.certified_action_pruning && c.support_br_scheduling
    &&& c.threshold_radius_bits == BITS_0_02
    &&& s.hp_cap == 150 && s.max_alive_per_side == 2 && s.per_battle == 2
    &&& s.side_filter is None && s.turn_filter is None
    &&& s.decision_order@ == "reverse"@ && s.reconstruction_seed == 1
}

impl RunIdentity {
    pub fn is_formal(&self) -> (r: bool)
        ensures
            r == is_formal_run(*self),
    {
        let c = &self.solver;
        let s = &self.selection;
        crate::text::same_text(self.profile.as_str(), FORMAL_PROFILE) && c.work_budget == 1_000_000
            && c.node_budget == 120_000 && c.cell_cap == 4096 && c.eps_bits == BITS_0_02
            && c.trial_depth == 24 && c.descend_floor_bits == BITS_0_1 && c.dead_damage_quotient
            && c.fold_terminal_nodes && c.fold_closed_nodes && c.monotone_stall_scheduling
            && c.two_sided_resource_scheduling && c.certified_action_pruning
            && c.support_br_scheduling && c.threshold_radius_bits == BITS_0_02 && s.hp_cap == 150
            && s.max_alive_per_side == 2 && s.per_battle == 2 && s.side_filter.is_none()
            && s.turn_filter.is_none() && crate::text::same_text(
            s.decision_order.as_str(),
            "reverse",
        ) && s.reconstruction_seed == 1
    }
}

/// Fingerprints of the four runtime data files, from their bytes (the
/// caller reads the files).
pub fn runtime_data_fingerprints(
    dex: &Vec<u8>,
    meta_pool: &Vec<u8>,
    community_rentals: &Vec<u8>,
    learnsets: &Vec<u8>,
) -> (r: RuntimeDataFingerprints)
    ensures
        r.dex@ == tagged_fingerprint_spec("m17e-dex-v1"@, seq![dex@]),
        r.meta_pool@ == tagged_fingerprint_spec("m17e-meta-pool-v1"@, seq![meta_pool@]),
        r.community_rentals@ == tagged_fingerprint_spec(
            "m17e-community-rentals-v1"@,
            seq![community_rentals@],
        ),
        r.learnsets@ == tagged_fingerprint_spec("m17e-learnsets-v1"@, seq![learnsets@]),
{
    RuntimeDataFingerprints {
        dex: file_fingerprint(dex, "m17e-dex-v1"),
        meta_pool: file_fingerprint(meta_pool, "m17e-meta-pool-v1"),
        community_rentals: file_fingerprint(community_rentals, "m17e-community-rentals-v1"),
        learnsets: file_fingerprint(learnsets, "m17e-learnsets-v1"),
    }
}

/// The tagged fingerprint of a file's contents (the caller reads the file).
pub fn file_fingerprint(bytes: &Vec<u8>, tag: &str) -> (s: String)
    ensures
        s@ == tagged_fingerprint_spec(tag@, seq![bytes@]),
{
    let mut parts: Vec<Vec<u8>> = Vec::new();
    let mut copy: Vec<u8> = Vec::new();
    let n = bytes.len();
    for i in 0..n
        invariant
            n == bytes@.len(),
            copy@ == bytes@.take(i as int),
    {
        copy.push(bytes[i]);
        assert(copy@ =~= bytes@.take(i + 1));
    }
    assert(copy@ =~= bytes@);
    parts.push(copy);
    assert(parts@.map_values(|p: Vec<u8>| p@) =~= seq![bytes@]);
    tagged_fingerprint(tag, &parts)
}


// ---------------------------------------------------------------- messages

pub open spec fn scope_text(scope: Scope) -> Seq<char> {
    match scope {
        Scope::Shard => "shard"@,
        Scope::Merged => "merged"@,
    }
}

pub open spec fn field_text(f: RunField) -> Seq<char> {
    match f {
        RunField::SolverBuildFingerprint => "solver_build_fingerprint"@,
        RunField::GeneratorExecutableFingerprint => "generator_executable_fingerprint"@,
        RunField::CorpusFingerprint => "corpus_fingerprint"@,
        RunField::Dex => "runtime_data.dex"@,
        RunField::MetaPool => "runtime_data.meta_pool"@,
        RunField::CommunityRentals => "runtime_data.community_rentals"@,
        RunField::Learnsets => "runtime_data.learnsets"@,
    }
}

/// `"text"` (the text is not escaped).
pub open spec fn quoted(t: Seq<char>) -> Seq<char> {
    seq!['"'] + t + seq!['"']
}

pub open spec fn summary_text(s: RowSummary) -> Seq<char> {
    "RowSummary { row_count: "@ + decimal(s.row_count as nat) + ", coordinate_fingerprint: "@
        + quoted(s.coordinate_fingerprint@) + ", state_fingerprint: "@ + quoted(
        s.state_fingerprint@,
    ) + ", row_fingerprint: "@ + quoted(s.row_fingerprint@) + " }"@
}

pub open spec fn mismatch_text(d: RowSummary, a: RowSummary) -> Seq<char> {
    " summary mismatch: declared "@ + summary_text(d) + ", actual "@ + summary_text(a)
}

/// The human-readable report of an error.
pub open spec fn error_text(e: ArtifactError) -> Seq<char> {
    match e {
        ArtifactError::Schema { scope, found } => "unsupported "@ + scope_text(scope) + " schema "@
            + quoted(found@),
        ArtifactError::Profile { scope, found } => scope_text(scope) + ".run: unsupported profile "@
            + quoted(found@),
        ArtifactError::EmptyField { scope, field } => scope_text(scope) + ".run."@ + field_text(
            field,
        ) + " is empty"@,
        ArtifactError::CorpusCount { scope } => scope_text(scope)
            + ".run: corpus_count must be positive"@,
        ArtifactError::SolverConfig { scope } => scope_text(scope)
            + ".run: invalid solver numeric config"@,
        ArtifactError::SelectionConfig { scope } => scope_text(scope)
            + ".run: invalid selection config"@,
        ArtifactError::Row { scope, index, fault } => scope_text(scope) + ".rows["@ + decimal(
            index as nat,
        ) + "]: "@ + match fault {
            RowFault::Side => "side must be 0 or 1"@,
            RowFault::Numbers => "invalid exact/width/eval"@,
            RowFault::StateKey => "state_key128 must be 32 lowercase hex digits"@,
        },
        ArtifactError::Unsorted { scope } => scope_text(scope)
            + ": rows are not strictly coordinate-sorted"@,
        ArtifactError::DuplicateCoordinate { scope, battle, decision } => scope_text(scope)
            + ": duplicate coordinate ("@ + decimal(battle as nat) + ", "@ + decimal(
            decision as nat,
        ) + ")"@,
        ArtifactError::DuplicateState { scope, key } => scope_text(scope)
            + ": duplicate state_key128 "@ + key@,
        ArtifactError::ShardRange => "shard battle range is outside the corpus"@,
        ArtifactError::ShardRowOutside { battle, lo, hi } => "shard row b"@ + decimal(battle as nat)
            + " is outside "@ + decimal(lo as nat) + "-"@ + decimal(hi as nat),
        ArtifactError::ShardSummary { declared, actual } => "shard"@ + mismatch_text(
            declared,
            actual,
        ),
        ArtifactError::NoShards => "merged artifact has no shards"@,
        ArtifactError::NoRows => "merged artifact has no anchor rows"@,
        ArtifactError::ShardGap { index, next } => "merge.shards["@ + decimal(index as nat)
            + "] does not continue complete range at battle "@ + decimal(next as nat),
        ArtifactError::RangeOverflow => "shard range overflow"@,
        ArtifactError::Coverage { next, corpus_count } => "merged shard coverage ends at "@
            + decimal(next as nat) + ", corpus has "@ + decimal(corpus_count as nat) + " battles"@,
        ArtifactError::MergedRowOutside { battle, corpus_count } => "merged row b"@ + decimal(
            battle as nat,
        ) + " is outside corpus_count "@ + decimal(corpus_count as nat),
        ArtifactError::GlobalSummary { declared, actual } => "merged global"@ + mismatch_text(
            declared,
            actual,
        ),
        ArtifactError::MergedShardSummary { index, declared, actual } => "merge.shards["@
            + decimal(index as nat) + "]"@ + mismatch_text(declared, actual),
    }
}

fn push_quoted(s: &mut String, t: &String)
    ensures
        final(s)@ == old(s)@ + quoted(t@),
{
    push_char(s, '"');
    s.append(t.as_str());
    push_char(s, '"');
    assert(final(s)@ =~= old(s)@ + quoted(t@));
}

fn push_summary(s: &mut String, x: &RowSummary)
    ensures
        final(s)@ == old(s)@ + summary_text(*x),
{
    s.append("RowSummary { row_count: ");
    push_decimal(s, x.row_count as u64);
    s.append(", coordinate_fingerprint: ");
    push_quoted(s, &x.coordinate_fingerprint);
    s.append(", state_fingerprint: ");
    push_quoted(s, &x.state_fingerprint);
    s.append(", row_fingerprint: ");
    push_quoted(s, &x.row_fingerprint);
    s.append(" }");
    assert(final(s)@ =~= old(s)@ + summary_text(*x));
}

fn push_mismatch(s: &mut String, d: &RowSummary, a: &RowSummary)
    ensures
        final(s)@ == old(s)@ + mismatch_text(*d, *a),
{
    s.append(" summary mismatch: declared ");
    push_summary(s, d);
    s.append(", actual ");
    push_summary(s, a);
    assert(final(s)@ =~= old(s)@ + mismatch_text(*d, *a));
}

fn push_scope(s: &mut String, scope: Scope)
    ensures
        final(s)@ == old(s)@ + scope_text(scope),
{
    match scope {
        Scope::Shard => s.append("shard"),
        Scope::Merged => s.append("merged"),
    }
}

impl ArtifactError {
    /// The error as a sentence, in the wording the sweep tools print.
    pub fn message(&self) -> (m: String)
        ensures
            m@ == error_text(*self),
    {
        let mut s = String::new();
        match self {
            ArtifactError::Schema { scope, found } => {
                s.append("unsupported ");
                push_scope(&mut s, *scope);
                s.append(" schema ");
                push_quoted(&mut s, found);
            },
            ArtifactError::Profile { scope, found } => {
                push_scope(&mut s, *scope);
                s.append(".run: unsupported profile ");
                push_quoted(&mut s, found);
            },
            ArtifactError::EmptyField { scope, field } => {
                push_scope(&mut s, *scope);
                s.append(".run.");
                match field {
                    RunField::SolverBuildFingerprint => s.append("solver_build_fingerprint"),
                    RunField::GeneratorExecutableFingerprint => s.append(
                        "generator_executable_fingerprint",
                    ),
                    RunField::CorpusFingerprint => s.append("corpus_fingerprint"),
                    RunField::Dex => s.append("runtime_data.dex"),
                    RunField::MetaPool => s.append("runtime_data.meta_pool"),
                    RunField::CommunityRentals => s.append("runtime_data.community_rentals"),
                    RunField::Learnsets => s.append("runtime_data.learnsets"),
                }
                s.append(" is empty");
            },
            ArtifactError::CorpusCount { scope } => {
                push_scope(&mut s, *scope);
                s.append(".run: corpus_count must be positive");
            },
            ArtifactError::SolverConfig { scope } => {
                push_scope(&mut s, *scope);
                s.append(".run: invalid solver numeric config");
            },
            ArtifactError::SelectionConfig { scope } => {
                push_scope(&mut s, *scope);
                s.append(".run: invalid selection config");
            },
            ArtifactError::Row { scope, index, fault } => {
                push_scope(&mut s, *scope);
                s.append(".rows[");
                push_decimal(&mut s, *index as u64);
                s.append("]: ");
                match fault {
                    RowFault::Side => s.append("side must be 0 or 1"),
                    RowFault::Numbers => s.append("invalid exact/width/eval"),
                    RowFault::StateKey => s.append("state_key128 must be 32 lowercase hex digits"),
                }
            },
            ArtifactError::Unsorted { scope } => {
                push_scope(&mut s, *scope);
                s.append(": rows are not strictly coordinate-sorted");
            },
            ArtifactError::DuplicateCoordinate { scope, battle, decision } => {
                push_scope(&mut s, *scope);
                s.append(": duplicate coordinate (");
                push_decimal(&mut s, *battle as u64);
                s.append(", ");
                push_decimal(&mut s, *decision as u64);
                s.append(")");
            },
            ArtifactError::DuplicateState { scope, key } => {
                push_scope(&mut s, *scope);
                s.append(": duplicate state_key128 ");
                s.append(key.as_str());
            },
            ArtifactError::ShardRange => {
                s.append("shard battle range is outside the corpus");
            },
            ArtifactError::ShardRowOutside { battle, lo, hi } => {
                s.append("shard row b");
                push_decimal(&mut s, *battle as u64);
                s.append(" is outside ");
                push_decimal(&mut s, *lo as u64);
                s.append("-");
                push_decimal(&mut s, *hi as u64);
            },
            ArtifactError::ShardSummary { declared, actual } => {
                s.append("shard");
                push_mismatch(&mut s, declared, actual);
            },
            ArtifactError::NoShards => {
                s.append("merged artifact has no shards");
            },
            ArtifactError::NoRows => {
                s.append("merged artifact has no anchor rows");
            },
            ArtifactError::ShardGap { index, next } => {
                s.append("merge.shards[");
                push_decimal(&mut s, *index as u64);
                s.append("] does not continue complete range at battle ");
                push_decimal(&mut s, *next as u64);
            },
            ArtifactError::RangeOverflow => {
                s.append("shard range overflow");
            },
            ArtifactError::Coverage { next, corpus_count } => {
                s.append("merged shard coverage ends at ");
                push_decimal(&mut s, *next as u64);
                s.append(", corpus has ");
                push_decimal(&mut s, *corpus_count as u64);
                s.append(" battles");
            },
            ArtifactError::MergedRowOutside { battle, corpus_count } => {
                s.append("merged row b");
                push_decimal(&mut s, *battle as u64);
                s.append(" is outside corpus_count ");
                push_decimal(&mut s, *corpus_count as u64);
            },
            ArtifactError::GlobalSummary { declared, actual } => {
                s.append("merged global");
                push_mismatch(&mut s, declared, actual);
            },
            ArtifactError::MergedShardSummary { index, declared, actual } => {
                s.append("merge.shards[");
                push_decimal(&mut s, *index as u64);
                s.append("]");
                push_mismatch(&mut s, declared, actual);
            },
        }
        assert(s@ =~= error_text(*self));
        s
    }
}


// ------------------------------------------------------------ row order

/// The rows' `(battle, decision)` coordinates are pairwise distinct.
pub open spec fn coords_distinct(rows: Seq<Row>) -> bool {
    forall|i: int, j: int| 0 <= i < j < rows.len() ==> coord(#[trigger] rows[i]) != coord(#[trigger] rows[j])
}

/// The rows in stable coordinate order.
pub open spec fn by_coord(rows: Seq<Row>) -> Seq<Row> {
    coordinate_order(rows).map_values(|i: usize| rows[i as int])
}

pub open spec fn row_coord_le() -> spec_fn(Row, Row) -> bool {
    |a: Row, b: Row| pair_le(coord(a), coord(b))
}

proof fn lemma_distinct_moves(rows1: Seq<Row>, rows2: Seq<Row>)
    requires
        rows1.to_multiset() == rows2.to_multiset(),
        coords_distinct(rows1),
    ensures
        coords_distinct(rows2),
{
    broadcast use vstd::seq_lib::group_to_multiset_ensures;

    assert(rows1.no_duplicates()) by {
        assert forall|i: int, j: int| 0 <= i < rows1.len() && 0 <= j < rows1.len() && i != j implies rows1[i] != rows1[j] by {
            if i < j {
                assert(coord(rows1[i]) != coord(rows1[j]));
            } else {
                assert(coord(rows1[j]) != coord(rows1[i]));
            }
        }
    }
    rows1.lemma_multiset_has_no_duplicates();
    rows2.lemma_multiset_has_no_duplicates_conv();
    assert forall|i: int, j: int| 0 <= i < j < rows2.len() implies coord(#[trigger] rows2[i]) != coord(#[trigger] rows2[j]) by {
        assert(rows2[i] != rows2[j]);
        assert(rows2.contains(rows2[i]));
        assert(rows2.contains(rows2[j]));
        assert(rows1.to_multiset().count(rows2[i]) > 0);
        assert(rows1.to_multiset().count(rows2[j]) > 0);
        assert(rows1.contains(rows2[i]));
        assert(rows1.contains(rows2[j]));
        let a = choose|a: int| 0 <= a < rows1.len() && rows1[a] == rows2[i];
        let b = choose|b: int| 0 <= b < rows1.len() && rows1[b] == rows2[j];
        if a < b {
            assert(coord(rows1[a]) != coord(rows1[b]));
        } else {
            assert(coord(rows1[b]) != coord(rows1[a]));
        }
    }
}

proof fn lemma_by_coord(rows: Seq<Row>)
    requires
        coords_distinct(rows),
        rows.len() <= usize::MAX,
    ensures
        strictly_sorted_by(by_coord(rows), row_coord_le()),
        by_coord(rows).to_multiset() == rows.to_multiset(),
{
    broadcast use vstd::seq_lib::group_to_multiset_ensures;

    let n = rows.len();
    let ids = Seq::new(n, |i: int| i as usize);
    let ile = |a: usize, b: usize|
        pair_le(
            rows.map_values(|r: Row| coord(r))[a as int],
            rows.map_values(|r: Row| coord(r))[b as int],
        );
    let p = coordinate_order(rows);
    assert(p == stable_sorted(ids, ile));
    assert(total_preorder(ile));
    lemma_stable_sorted_is_sorted(ids, ile);
    lemma_stable_sorted_is_permutation(ids, ile);
    assert(ids.no_duplicates()) by {
        assert forall|i: int, j: int| 0 <= i < ids.len() && 0 <= j < ids.len() && i != j implies ids[i] != ids[j] by {}
    }
    ids.lemma_multiset_has_no_duplicates();
    p.lemma_multiset_has_no_duplicates_conv();
    assert forall|k: int| 0 <= k < p.len() implies (#[trigger] p[k]) < n by {
        assert(p.contains(p[k]));
        assert(ids.to_multiset().count(p[k]) > 0);
        assert(ids.contains(p[k]));
    }
    let f = |i: usize| rows[i as int];
    let sq = by_coord(rows);
    assert(sq == p.map_values(f));
    assert forall|a: int, b: int| 0 <= a < b < sq.len() implies row_coord_le()(#[trigger] sq[a], #[trigger] sq[b])
        && !row_coord_le()(sq[b], sq[a]) by {
        assert(ile(p[a], p[b]));
        assert(p[a] < n && p[b] < n);
        assert(p[a] != p[b]);
        assert(rows.map_values(|r: Row| coord(r))[p[a] as int] == coord(rows[p[a] as int]));
        assert(rows.map_values(|r: Row| coord(r))[p[b] as int] == coord(rows[p[b] as int]));
        if p[a] < p[b] {
            assert(coord(rows[p[a] as int]) != coord(rows[p[b] as int]));
        } else {
            assert(coord(rows[p[b] as int]) != coord(rows[p[a] as int]));
        }
    }
    lemma_map_keeps_multiset(p, ids, f);
    assert forall|i: int| 0 <= i < n implies #[trigger] ids.map_values(f)[i] == rows[i] by {}
    assert(ids.map_values(f) =~= rows);
}

/// Law: the summary of a set of rows with distinct coordinates does not
/// depend on the order of the rows: any reordering has the same count and
/// the same coordinate, state and row fingerprints.
pub proof fn lemma_summary_ignores_row_order(rows1: Seq<Row>, rows2: Seq<Row>)
    requires
        rows1.to_multiset() == rows2.to_multiset(),
        coords_distinct(rows1),
        rows1.len() <= usize::MAX,
    ensures
        rows1.len() == rows2.len(),
        coordinate_fingerprint_of(rows1) == coordinate_fingerprint_of(rows2),
        state_fingerprint_of(rows1) == state_fingerprint_of(rows2),
        row_fingerprint_of(rows1) == row_fingerprint_of(rows2),
{
    broadcast use vstd::seq_lib::group_to_multiset_ensures;

    assert(rows1.len() == rows1.to_multiset().len());
    assert(rows2.len() == rows2.to_multiset().len());
    lemma_distinct_moves(rows1, rows2);
    lemma_by_coord(rows1);
    lemma_by_coord(rows2);
    lemma_strictly_sorted_unique(by_coord(rows1), by_coord(rows2), row_coord_le());
    let s = by_coord(rows1);
    assert(coordinate_order(rows1).map_values(|i: usize| coordinate_record(rows1[i as int])) =~= s.map_values(|r: Row| coordinate_record(r)));
    assert(coordinate_order(rows2).map_values(|i: usize| coordinate_record(rows2[i as int])) =~= s.map_values(|r: Row| coordinate_record(r)));
    assert(coordinate_order(rows1).map_values(|i: usize| row_record(rows1[i as int])) =~= s.map_values(|r: Row| row_record(r)));
    assert(coordinate_order(rows2).map_values(|i: usize| row_record(rows2[i as int])) =~= s.map_values(|r: Row| row_record(r)));
    let g = |r: Row| encode_utf8(r.state_key128@);
    lemma_map_keeps_multiset(rows1, rows2, g);
    lemma_lex_total_order();
    lemma_sort_forgets_order(rows1.map_values(g), rows2.map_values(g), |a: Seq<u8>, b: Seq<u8>| lex_le(a, b));
}

} // verus!
