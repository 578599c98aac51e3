//! Corpus reconstruction of a logged side: the hidden set each mon most
//! plausibly carried, from its revealed moves (PP marks and moves it is
//! seen to use later), the candidate sets of its species, and, when no
//! candidate exists, its learnset; the three mons the side brought; and
//! the move rows of the request the side was answering.

use vstd::prelude::*;

use crate::corpus::plain;
use crate::observe::Gender;
use crate::position::PokemonSet;
use crate::sort::{insert_sorted, lemma_insert_prefix, lemma_insert_start, lemma_insert_stop, stable_sorted};
use crate::text::{has_prefix, plain_id, same_text, starts_with, to_id, toid};

verus! {

/// One move of the dex as fabrication reads it.
#[derive(Debug)]
pub struct SetMove {
    pub key: String,
    pub name: String,
    /// The move's category is Status.
    pub status: bool,
    pub base_power: u16,
    pub move_type: String,
    /// Base PP.
    pub pp: u8,
}

/// The dex tables fabrication reads: species `(key, name)` and moves, an id
/// being the index.
#[derive(Debug)]
pub struct SetDex {
    pub species: Vec<(String, String)>,
    pub moves: Vec<SetMove>,
}

/// A logged mon at a decision point.
#[derive(Debug)]
pub struct MonSnapshot {
    pub species: usize,
    /// Nickname (empty when unknown).
    pub name: String,
    pub gender: Gender,
    pub level: u8,
    /// PP marks: `(move id, uses)`.
    pub uses: Vec<(usize, i32)>,
}

/// Where fabricated sets come from: candidate sets per species id, the
/// format's learnsets by species key, and Hidden Power DVs by type.
#[derive(Debug)]
pub struct SetSources {
    pub by_species: Vec<(usize, Vec<PokemonSet>)>,
    pub learnsets: Vec<(String, Vec<String>)>,
    pub hp_dvs: Vec<(String, (u16, u16))>,
}

/// How a set was fabricated.
#[derive(Clone, Copy, Debug)]
pub enum Provenance {
    /// A candidate explains every revealed move.
    CandFull,
    /// The best candidate, with the revealed moves put first.
    CandFill,
    /// No candidate: the revealed moves padded from the learnset.
    LearnsetPad,
}

impl Provenance {
    pub fn as_str(self) -> (s: &'static str)
        ensures
            s@ == match self {
                Provenance::CandFull => "cand-full"@,
                Provenance::CandFill => "cand-fill"@,
                Provenance::LearnsetPad => "learnset-pad"@,
            },
    {
        match self {
            Provenance::CandFull => "cand-full",
            Provenance::CandFill => "cand-fill",
            Provenance::LearnsetPad => "learnset-pad",
        }
    }
}

// ------------------------------------------------------------------ views

pub open spec fn sv(v: Seq<String>) -> Seq<Seq<char>> {
    v.map_values(|s: String| s@)
}

pub open spec fn stats_v(o: Option<Vec<(String, u16)>>) -> Option<Seq<(Seq<char>, u16)>> {
    match o {
        Some(v) => Some(v@.map_values(|e: (String, u16)| (e.0@, e.1))),
        None => None,
    }
}

/// A set as plain values.
pub struct SetV {
    pub name: Seq<char>,
    pub species: Seq<char>,
    pub item: Seq<char>,
    pub ability: Seq<char>,
    pub moves: Seq<Seq<char>>,
    pub level: u8,
    pub evs: Option<Seq<(Seq<char>, u16)>>,
    pub ivs: Option<Seq<(Seq<char>, u16)>>,
    pub happiness: Option<u8>,
    pub gender: Option<Seq<char>>,
}

pub open spec fn set_view(s: PokemonSet) -> SetV {
    SetV {
        name: s.name@,
        species: s.species@,
        item: s.item@,
        ability: s.ability@,
        moves: sv(s.moves@),
        level: s.level,
        evs: stats_v(s.evs),
        ivs: stats_v(s.ivs),
        happiness: s.happiness,
        gender: match s.gender {
            Some(g) => Some(g@),
            None => None,
        },
    }
}

// ------------------------------------------------------------------ specs

/// The first move id keyed `k`, from `i` on.
pub open spec fn move_slot(moves: Seq<SetMove>, k: Seq<char>, i: int) -> Option<int>
    decreases moves.len() - i,
{
    if i < 0 || i >= moves.len() {
        None
    } else if moves[i].key@ == k {
        Some(i)
    } else {
        move_slot(moves, k, i + 1)
    }
}

/// The revealed moves with each later-seen move appended when new.
pub open spec fn with_future(list: Seq<Seq<char>>, future: Seq<Seq<char>>) -> Seq<Seq<char>>
    decreases future.len(),
{
    if future.len() == 0 {
        list
    } else {
        let l = with_future(list, future.drop_last());
        if l.contains(future.last()) {
            l
        } else {
            l.push(future.last())
        }
    }
}

/// The mon's revealed move keys: its PP marks (plain Hidden Power), then
/// the moves it is seen to use later.
pub open spec fn revealed_of(dex: SetDex, m: MonSnapshot, future: Seq<Seq<char>>) -> Seq<Seq<char>> {
    with_future(m.uses@.map_values(|u: (usize, i32)| plain_id(dex.moves@[u.0 as int].key@)), future)
}

/// The candidate sets of species `sp`.
pub open spec fn cands_of(by: Seq<(usize, Vec<PokemonSet>)>, sp: usize, i: int) -> Seq<PokemonSet>
    decreases by.len() - i,
{
    if i < 0 || i >= by.len() {
        Seq::empty()
    } else if by[i].0 == sp {
        by[i].1@
    } else {
        cands_of(by, sp, i + 1)
    }
}

/// A set's moves as plain ids.
pub open spec fn norm_moves(set: PokemonSet) -> Seq<Seq<char>> {
    set.moves@.map_values(|x: String| plain_id(to_id(x@)))
}

/// How many revealed moves the candidate's moves contain.
pub open spec fn overlap(rev: Seq<Seq<char>>, cm: Seq<Seq<char>>) -> nat
    decreases rev.len(),
{
    if rev.len() == 0 {
        0
    } else {
        overlap(rev.drop_last(), cm) + if cm.contains(rev.last()) { 1nat } else { 0nat }
    }
}

/// The best of the first `n` candidates: the first with the most overlap,
/// preferring one that explains every reveal.
pub open spec fn best_upto(rev: Seq<Seq<char>>, cands: Seq<PokemonSet>, n: int) -> Option<(nat, bool, int)>
    decreases n,
{
    if n <= 0 {
        None
    } else {
        let prev = best_upto(rev, cands, n - 1);
        let ov = overlap(rev, norm_moves(cands[n - 1]));
        let full = ov == rev.len();
        match prev {
            None => Some((ov, full, n - 1)),
            Some((o, f, _)) => if ov > o || (ov == o && full && !f) {
                Some((ov, full, n - 1))
            } else {
                prev
            },
        }
    }
}

/// A move key shown by its dex name (the key itself when unknown).
pub open spec fn display(dex: SetDex, r: Seq<char>) -> Seq<char> {
    match move_slot(dex.moves@, r, 0) {
        Some(id) => dex.moves@[id].name@,
        None => r,
    }
}

/// Some move of `l` is `c` up to plain id.
pub open spec fn has_same(l: Seq<Seq<char>>, c: Seq<char>) -> bool {
    exists|j: int| 0 <= j < l.len() && plain_id(to_id(#[trigger] l[j])) == plain_id(to_id(c))
}

/// `moves` filled up to four from `cm`, skipping repeats.
pub open spec fn filled(moves: Seq<Seq<char>>, cm: Seq<Seq<char>>) -> Seq<Seq<char>>
    decreases cm.len(),
{
    if cm.len() == 0 {
        moves
    } else {
        let l = filled(moves, cm.drop_last());
        if l.len() >= 4 || has_same(l, cm.last()) {
            l
        } else {
            l.push(cm.last())
        }
    }
}

/// The learnset of species key `k`.
pub open spec fn learnset_of(ls: Seq<(String, Vec<String>)>, k: Seq<char>, i: int) -> Seq<Seq<char>>
    decreases ls.len() - i,
{
    if i < 0 || i >= ls.len() {
        Seq::empty()
    } else if ls[i].0@ == k {
        sv(ls[i].1@)
    } else {
        learnset_of(ls, k, i + 1)
    }
}

/// The Hidden Power Ice DVs `(atk, def)`, `(15, 13)` by default.
pub open spec fn ice_dvs(dvs: Seq<(String, (u16, u16))>, i: int) -> (u16, u16)
    decreases dvs.len() - i,
{
    if i < 0 || i >= dvs.len() {
        (15u16, 13u16)
    } else if dvs[i].0@ == "ice"@ {
        dvs[i].1
    } else {
        ice_dvs(dvs, i + 1)
    }
}

/// The revealed moves by name for a learnset pad: Hidden Power as such,
/// other known moves by dex name, unknown ones dropped.
pub open spec fn pad_named(dex: SetDex, rev: Seq<Seq<char>>) -> Seq<Seq<char>>
    decreases rev.len(),
{
    if rev.len() == 0 {
        Seq::empty()
    } else {
        let l = pad_named(dex, rev.drop_last());
        let r = rev.last();
        if r == "hiddenpower"@ {
            l.push("Hidden Power"@)
        } else {
            match move_slot(dex.moves@, r, 0) {
                Some(id) => l.push(dex.moves@[id].name@),
                None => l,
            }
        }
    }
}

/// The learnset's damaging moves the dex knows (no Hidden Power), by id.
pub open spec fn scored_ids(dex: SetDex, legal: Seq<Seq<char>>) -> Seq<usize>
    decreases legal.len(),
{
    if legal.len() == 0 {
        Seq::empty()
    } else {
        let l = scored_ids(dex, legal.drop_last());
        let k = legal.last();
        match move_slot(dex.moves@, k, 0) {
            Some(id) => if dex.moves@[id].status || has_prefix(k, "hiddenpower"@) { l } else { l.push(id as usize) },
            None => l,
        }
    }
}

/// Stable order by descending base power.
pub open spec fn power_desc(dex: SetDex) -> spec_fn(usize, usize) -> bool {
    |a: usize, b: usize| dex.moves@[a as int].base_power >= dex.moves@[b as int].base_power
}

/// Moves picked by descending power: up to four, no repeats, one per type.
pub open spec fn picked(dex: SetDex, start: Seq<Seq<char>>, ids: Seq<usize>) -> (Seq<Seq<char>>, Seq<Seq<char>>)
    decreases ids.len(),
{
    if ids.len() == 0 {
        (start, Seq::empty())
    } else {
        let (l, seen) = picked(dex, start, ids.drop_last());
        let mv = dex.moves@[ids.last() as int];
        if l.len() >= 4 || has_same(l, mv.name@) || seen.contains(mv.move_type@) {
            (l, seen)
        } else {
            (l.push(mv.name@), seen.push(mv.move_type@))
        }
    }
}

pub open spec fn full_evs() -> Seq<(Seq<char>, u16)> {
    seq![("hp"@, 255u16), ("atk"@, 255u16), ("def"@, 255u16), ("spa"@, 255u16), ("spd"@, 255u16), ("spe"@, 255u16)]
}

/// The learnset pad: the revealed moves, then the strongest learnset moves
/// of new types; Leftovers, full EVs, Hidden Power Ice DVs when it is
/// revealed.
pub open spec fn pad_set(dex: SetDex, src: SetSources, sp_key: Seq<char>, sp_name: Seq<char>, rev: Seq<Seq<char>>) -> SetV {
    let legal = learnset_of(src.learnsets@, sp_key, 0);
    let ids = stable_sorted(scored_ids(dex, legal), power_desc(dex));
    let dv = ice_dvs(src.hp_dvs@, 0);
    SetV {
        name: Seq::empty(),
        species: sp_name,
        item: "Leftovers"@,
        ability: "No Ability"@,
        moves: picked(dex, pad_named(dex, rev), ids).0,
        level: 0,
        evs: Some(full_evs()),
        ivs: Some(if rev.contains("hiddenpower"@) {
            seq![("atk"@, (dv.0 * 2) as u16), ("def"@, (dv.1 * 2) as u16)]
        } else {
            Seq::empty()
        }),
        happiness: None,
        gender: None,
    }
}

pub open spec fn gender_text(g: Gender) -> Seq<char> {
    match g {
        Gender::M => "M"@,
        Gender::F => "F"@,
        Gender::N => ""@,
    }
}

/// The fabricated set and its provenance: the best candidate when one
/// exists (kept whole when it explains every reveal, else with the
/// reveals first), else the learnset pad; then the mon's nickname (the
/// species name when unknown), level and gender, the known item, and no
/// item once consumed.
pub open spec fn fabricated(dex: SetDex, src: SetSources, m: MonSnapshot, future: Seq<Seq<char>>, known_item: Option<Seq<char>>, consumed: bool) -> (SetV, Provenance) {
    let sp_key = dex.species@[m.species as int].0@;
    let sp_name = dex.species@[m.species as int].1@;
    let rev = revealed_of(dex, m, future);
    let cands = cands_of(src.by_species@, m.species, 0);
    let (base, prov) = match best_upto(rev, cands, cands.len() as int) {
        Some((_, true, i)) => (set_view(cands[i]), Provenance::CandFull),
        Some((_, false, i)) => (
            SetV { moves: filled(rev.map_values(|r: Seq<char>| display(dex, r)), sv(cands[i].moves@)), ..set_view(cands[i]) },
            Provenance::CandFill,
        ),
        None => (pad_set(dex, src, sp_key, sp_name, rev), Provenance::LearnsetPad),
    };
    let item = if consumed {
        Seq::empty()
    } else {
        match known_item {
            Some(it) => it,
            None => base.item,
        }
    };
    (SetV {
        name: if m.name@.len() == 0 { sp_name } else { m.name@ },
        level: m.level,
        gender: Some(gender_text(m.gender)),
        item,
        ..base
    }, prov)
}


// ------------------------------------------------------------------- exec

fn copy_strs(v: &Vec<String>) -> (r: Vec<String>)
    ensures
        sv(r@) == sv(v@),
{
    let mut r: Vec<String> = Vec::new();
    for i in 0..v.len()
        invariant
            sv(r@) == sv(v@.take(i as int)),
    {
        let ghost before = sv(r@);
        r.push(String::from_str(v[i].as_str()));
        assert(sv(r@) =~= before.push(v@[i as int]@));
        assert(sv(v@.take(i + 1)) =~= sv(v@.take(i as int)).push(v@[i as int]@));
    }
    assert(v@.take(v@.len() as int) =~= v@);
    r
}

fn copy_stats(o: &Option<Vec<(String, u16)>>) -> (r: Option<Vec<(String, u16)>>)
    ensures
        stats_v(r) == stats_v(*o),
{
    match o {
        Some(v) => {
            let mut r: Vec<(String, u16)> = Vec::new();
            for i in 0..v.len()
                invariant
                    r@.map_values(|e: (String, u16)| (e.0@, e.1)) == v@.take(i as int).map_values(|e: (String, u16)| (e.0@, e.1)),
            {
                let ghost before = r@.map_values(|e: (String, u16)| (e.0@, e.1));
                r.push((String::from_str(v[i].0.as_str()), v[i].1));
                assert(r@.map_values(|e: (String, u16)| (e.0@, e.1)) =~= before.push((v@[i as int].0@, v@[i as int].1)));
                assert(v@.take(i + 1).map_values(|e: (String, u16)| (e.0@, e.1)) =~= v@.take(i as int).map_values(|e: (String, u16)| (e.0@, e.1)).push((v@[i as int].0@, v@[i as int].1)));
            }
            assert(v@.take(v@.len() as int) =~= v@);
            Some(r)
        },
        None => None,
    }
}

fn copy_set(s: &PokemonSet) -> (r: PokemonSet)
    ensures
        set_view(r) == set_view(*s),
{
    PokemonSet {
        name: String::from_str(s.name.as_str()),
        species: String::from_str(s.species.as_str()),
        item: String::from_str(s.item.as_str()),
        ability: String::from_str(s.ability.as_str()),
        moves: copy_strs(&s.moves),
        level: s.level,
        evs: copy_stats(&s.evs),
        ivs: copy_stats(&s.ivs),
        happiness: s.happiness,
        gender: match &s.gender {
            Some(g) => Some(String::from_str(g.as_str())),
            None => None,
        },
    }
}

proof fn lemma_move_slot(moves: Seq<SetMove>, k: Seq<char>, i: int)
    requires
        0 <= i,
    ensures
        move_slot(moves, k, i) matches Some(j) ==> i <= j < moves.len() && moves[j].key@ == k,
    decreases moves.len() - i,
{
    if i < moves.len() && moves[i].key@ != k {
        lemma_move_slot(moves, k, i + 1);
    }
}

fn find_move(dex: &SetDex, k: &str) -> (r: Option<usize>)
    ensures
        match r {
            Some(j) => move_slot(dex.moves@, k@, 0) == Some(j as int) && j < dex.moves@.len(),
            None => move_slot(dex.moves@, k@, 0) is None,
        },
{
    let mut i: usize = dex.moves.len();
    let mut found: Option<usize> = None;
    while i > 0
        invariant
            i <= dex.moves@.len(),
            match found {
                Some(f) => move_slot(dex.moves@, k@, i as int) == Some(f as int),
                None => move_slot(dex.moves@, k@, i as int) is None,
            },
        decreases i,
    {
        i = i - 1;
        if same_text(dex.moves[i].key.as_str(), k) {
            found = Some(i);
        }
    }
    proof {
        lemma_move_slot(dex.moves@, k@, 0);
    }
    found
}

fn str_in(list: &Vec<String>, x: &str) -> (r: bool)
    ensures
        r == sv(list@).contains(x@),
{
    for j in 0..list.len()
        invariant
            forall|q: int| 0 <= q < j ==> list@[q]@ != x@,
    {
        if same_text(list[j].as_str(), x) {
            assert(sv(list@)[j as int] == x@);
            return true;
        }
    }
    assert forall|q: int| 0 <= q < sv(list@).len() implies sv(list@)[q] != x@ by {
        assert(sv(list@)[q] == list@[q]@);
    }
    false
}

fn revealed(dex: &SetDex, m: &MonSnapshot, future: &[String]) -> (r: Vec<String>)
    requires
        forall|k: int| 0 <= k < m.uses@.len() ==> (#[trigger] m.uses@[k]).0 < dex.moves@.len(),
    ensures
        sv(r@) == revealed_of(*dex, *m, sv(future@)),
{
    let ghost base = m.uses@.map_values(|u: (usize, i32)| plain_id(dex.moves@[u.0 as int].key@));
    let mut r: Vec<String> = Vec::new();
    for i in 0..m.uses.len()
        invariant
            forall|k: int| 0 <= k < m.uses@.len() ==> (#[trigger] m.uses@[k]).0 < dex.moves@.len(),
            base == m.uses@.map_values(|u: (usize, i32)| plain_id(dex.moves@[u.0 as int].key@)),
            sv(r@) == base.take(i as int),
    {
        let id = m.uses[i].0;
        let ghost before = sv(r@);
        r.push(plain(dex.moves[id].key.as_str()));
        assert(sv(r@) =~= before.push(base[i as int]));
        assert(base.take(i + 1) =~= base.take(i as int).push(base[i as int]));
    }
    assert(base.take(base.len() as int) =~= base);
    let ghost fv = sv(future@);
    for k in 0..future.len()
        invariant
            fv == sv(future@),
            sv(r@) == with_future(base, fv.take(k as int)),
    {
        assert(fv.take(k + 1).drop_last() =~= fv.take(k as int));
        assert(fv.take(k + 1).last() == future@[k as int]@);
        if !str_in(&r, future[k].as_str()) {
            let ghost before = sv(r@);
            r.push(String::from_str(future[k].as_str()));
            assert(sv(r@) =~= before.push(future@[k as int]@));
        }
    }
    assert(fv.take(fv.len() as int) =~= fv);
    r
}

proof fn lemma_cands_of(by: Seq<(usize, Vec<PokemonSet>)>, sp: usize, i: int)
    requires
        0 <= i,
    ensures
        (exists|j: int| i <= j < by.len() && by[j].0 == sp) || cands_of(by, sp, i) == Seq::<PokemonSet>::empty(),
    decreases by.len() - i,
{
    if i < by.len() && by[i].0 != sp {
        lemma_cands_of(by, sp, i + 1);
    }
}

fn find_cands(src: &SetSources, sp: usize) -> (r: Option<usize>)
    ensures
        match r {
            Some(j) => j < src.by_species@.len() && cands_of(src.by_species@, sp, 0) == src.by_species@[j as int].1@,
            None => cands_of(src.by_species@, sp, 0) == Seq::<PokemonSet>::empty(),
        },
{
    let mut i: usize = src.by_species.len();
    let mut found: Option<usize> = None;
    while i > 0
        invariant
            i <= src.by_species@.len(),
            match found {
                Some(f) => f < src.by_species@.len() && cands_of(src.by_species@, sp, i as int) == src.by_species@[f as int].1@,
                None => cands_of(src.by_species@, sp, i as int) == Seq::<PokemonSet>::empty(),
            },
        decreases i,
    {
        i = i - 1;
        if src.by_species[i].0 == sp {
            found = Some(i);
        }
    }
    found
}

fn overlap_of(rev: &Vec<String>, set: &PokemonSet) -> (r: usize)
    ensures
        r == overlap(sv(rev@), norm_moves(*set)),
{
    let mut cm: Vec<String> = Vec::new();
    for i in 0..set.moves.len()
        invariant
            sv(cm@) == norm_moves(*set).take(i as int),
    {
        let ghost before = sv(cm@);
        let t = toid(set.moves[i].as_str());
        cm.push(plain(t.as_str()));
        assert(sv(cm@) =~= before.push(norm_moves(*set)[i as int]));
        assert(norm_moves(*set).take(i + 1) =~= norm_moves(*set).take(i as int).push(norm_moves(*set)[i as int]));
    }
    assert(norm_moves(*set).take(set.moves@.len() as int) =~= norm_moves(*set));
    let ghost rv = sv(rev@);
    let mut n: usize = 0;
    for k in 0..rev.len()
        invariant
            rv == sv(rev@),
            sv(cm@) == norm_moves(*set),
            n == overlap(rv.take(k as int), norm_moves(*set)),
            n <= k,
    {
        assert(rv.take(k + 1).drop_last() =~= rv.take(k as int));
        assert(rv.take(k + 1).last() == rev@[k as int]@);
        if str_in(&cm, rev[k].as_str()) {
            n = n + 1;
        }
    }
    assert(rv.take(rv.len() as int) =~= rv);
    n
}

proof fn lemma_overlap_le(rev: Seq<Seq<char>>, cm: Seq<Seq<char>>)
    ensures
        overlap(rev, cm) <= rev.len(),
    decreases rev.len(),
{
    if rev.len() > 0 {
        lemma_overlap_le(rev.drop_last(), cm);
    }
}

fn best_cand(rev: &Vec<String>, cands: &Vec<PokemonSet>) -> (r: Option<(usize, bool, usize)>)
    ensures
        match r {
            Some((o, f, i)) => best_upto(sv(rev@), cands@, cands@.len() as int) == Some((o as nat, f, i as int)) && i < cands@.len(),
            None => best_upto(sv(rev@), cands@, cands@.len() as int) is None,
        },
{
    let mut best: Option<(usize, bool, usize)> = None;
    for i in 0..cands.len()
        invariant
            match best {
                Some((o, f, b)) => best_upto(sv(rev@), cands@, i as int) == Some((o as nat, f, b as int)) && b < i,
                None => best_upto(sv(rev@), cands@, i as int) is None,
            },
    {
        let ov = overlap_of(rev, &cands[i]);
        let full = ov == rev.len();
        best = match best {
            None => Some((ov, full, i)),
            Some((o, f, b)) => if ov > o || (ov == o && full && !f) {
                Some((ov, full, i))
            } else {
                Some((o, f, b))
            },
        };
    }
    best
}

fn has_same_exec(l: &Vec<String>, c: &str) -> (r: bool)
    ensures
        r == has_same(sv(l@), c@),
{
    let ct = toid(c);
    let cp = plain(ct.as_str());
    for j in 0..l.len()
        invariant
            cp@ == plain_id(to_id(c@)),
            forall|q: int| 0 <= q < j ==> plain_id(to_id(#[trigger] sv(l@)[q])) != plain_id(to_id(c@)),
    {
        let t = toid(l[j].as_str());
        let p = plain(t.as_str());
        assert(sv(l@)[j as int] == l@[j as int]@);
        if same_text(p.as_str(), cp.as_str()) {
            return true;
        }
    }
    false
}

fn fill(moves: Vec<String>, cm: &Vec<String>) -> (r: Vec<String>)
    ensures
        sv(r@) == filled(sv(moves@), sv(cm@)),
{
    let ghost m0 = sv(moves@);
    let ghost cv = sv(cm@);
    let mut l = moves;
    for k in 0..cm.len()
        invariant
            cv == sv(cm@),
            sv(l@) == filled(m0, cv.take(k as int)),
    {
        assert(cv.take(k + 1).drop_last() =~= cv.take(k as int));
        assert(cv.take(k + 1).last() == cm@[k as int]@);
        if l.len() < 4 && !has_same_exec(&l, cm[k].as_str()) {
            let ghost before = sv(l@);
            l.push(String::from_str(cm[k].as_str()));
            assert(sv(l@) =~= before.push(cm@[k as int]@));
        }
    }
    assert(cv.take(cv.len() as int) =~= cv);
    l
}

fn display_all(dex: &SetDex, rev: &Vec<String>) -> (r: Vec<String>)
    ensures
        sv(r@) == sv(rev@).map_values(|x: Seq<char>| display(*dex, x)),
{
    let ghost target = sv(rev@).map_values(|x: Seq<char>| display(*dex, x));
    let mut r: Vec<String> = Vec::new();
    for i in 0..rev.len()
        invariant
            target == sv(rev@).map_values(|x: Seq<char>| display(*dex, x)),
            sv(r@) == target.take(i as int),
    {
        let d = match find_move(dex, rev[i].as_str()) {
            Some(id) => String::from_str(dex.moves[id].name.as_str()),
            None => String::from_str(rev[i].as_str()),
        };
        assert(d@ == target[i as int]);
        let ghost before = sv(r@);
        r.push(d);
        assert(sv(r@) =~= before.push(target[i as int]));
        assert(target.take(i + 1) =~= target.take(i as int).push(target[i as int]));
    }
    assert(target.take(target.len() as int) =~= target);
    r
}


fn find_learnset(src: &SetSources, k: &str) -> (r: Option<usize>)
    ensures
        match r {
            Some(j) => j < src.learnsets@.len() && learnset_of(src.learnsets@, k@, 0) == sv(src.learnsets@[j as int].1@),
            None => learnset_of(src.learnsets@, k@, 0) == Seq::<Seq<char>>::empty(),
        },
{
    let mut i: usize = src.learnsets.len();
    let mut found: Option<usize> = None;
    while i > 0
        invariant
            i <= src.learnsets@.len(),
            match found {
                Some(f) => f < src.learnsets@.len() && learnset_of(src.learnsets@, k@, i as int) == sv(src.learnsets@[f as int].1@),
                None => learnset_of(src.learnsets@, k@, i as int) == Seq::<Seq<char>>::empty(),
            },
        decreases i,
    {
        i = i - 1;
        if same_text(src.learnsets[i].0.as_str(), k) {
            found = Some(i);
        }
    }
    found
}

fn find_ice(src: &SetSources) -> (r: (u16, u16))
    ensures
        r == ice_dvs(src.hp_dvs@, 0),
{
    let mut i: usize = src.hp_dvs.len();
    let mut found: (u16, u16) = (15, 13);
    while i > 0
        invariant
            i <= src.hp_dvs@.len(),
            found == ice_dvs(src.hp_dvs@, i as int),
        decreases i,
    {
        i = i - 1;
        if same_text(src.hp_dvs[i].0.as_str(), "ice") {
            found = src.hp_dvs[i].1;
        }
    }
    found
}

fn named_for_pad(dex: &SetDex, rev: &Vec<String>) -> (r: Vec<String>)
    ensures
        sv(r@) == pad_named(*dex, sv(rev@)),
{
    let ghost rv = sv(rev@);
    let mut l: Vec<String> = Vec::new();
    for k in 0..rev.len()
        invariant
            rv == sv(rev@),
            sv(l@) == pad_named(*dex, rv.take(k as int)),
    {
        assert(rv.take(k + 1).drop_last() =~= rv.take(k as int));
        assert(rv.take(k + 1).last() == rev@[k as int]@);
        let ghost before = sv(l@);
        if same_text(rev[k].as_str(), "hiddenpower") {
            let hp = String::from_str("Hidden Power");
            l.push(hp);
            assert(sv(l@) =~= before.push("Hidden Power"@));
        } else {
            match find_move(dex, rev[k].as_str()) {
                Some(id) => {
                    l.push(String::from_str(dex.moves[id].name.as_str()));
                    assert(sv(l@) =~= before.push(dex.moves@[id as int].name@));
                },
                None => {},
            }
        }
    }
    assert(rv.take(rv.len() as int) =~= rv);
    l
}

fn scored(dex: &SetDex, legal: &Vec<String>) -> (r: Vec<usize>)
    ensures
        r@ == scored_ids(*dex, sv(legal@)),
        forall|k: int| 0 <= k < r@.len() ==> r@[k] < dex.moves@.len(),
{
    let ghost lv = sv(legal@);
    let mut l: Vec<usize> = Vec::new();
    for k in 0..legal.len()
        invariant
            lv == sv(legal@),
            l@ == scored_ids(*dex, lv.take(k as int)),
            forall|q: int| 0 <= q < l@.len() ==> l@[q] < dex.moves@.len(),
    {
        assert(lv.take(k + 1).drop_last() =~= lv.take(k as int));
        assert(lv.take(k + 1).last() == legal@[k as int]@);
        match find_move(dex, legal[k].as_str()) {
            Some(id) => {
                if !(dex.moves[id].status || starts_with(legal[k].as_str(), "hiddenpower")) {
                    l.push(id);
                }
            },
            None => {},
        }
    }
    assert(lv.take(lv.len() as int) =~= lv);
    l
}

fn sort_by_power(dex: &SetDex, v: Vec<usize>) -> (out: Vec<usize>)
    requires
        forall|k: int| 0 <= k < v@.len() ==> v@[k] < dex.moves@.len(),
    ensures
        out@ == stable_sorted(v@, power_desc(*dex)),
        forall|k: int| 0 <= k < out@.len() ==> out@[k] < dex.moves@.len(),
{
    let ghost le = power_desc(*dex);
    let ghost src = v@;
    let mut out: Vec<usize> = Vec::new();
    let n = v.len();
    for k in 0..n
        invariant
            n == src.len(),
            src == v@,
            le == power_desc(*dex),
            forall|q: int| 0 <= q < src.len() ==> src[q] < dex.moves@.len(),
            forall|q: int| 0 <= q < out@.len() ==> out@[q] < dex.moves@.len(),
            out@ == stable_sorted(src.take(k as int), le),
    {
        let x = v[k];
        let ghost t = out@;
        let mut j = out.len();
        proof {
            lemma_insert_start(t, x, le);
        }
        loop
            invariant
                j <= out@.len(),
                t == out@,
                le == power_desc(*dex),
                x < dex.moves@.len(),
                forall|q: int| 0 <= q < out@.len() ==> out@[q] < dex.moves@.len(),
                insert_sorted(t, x, le) == insert_sorted(t.take(j as int), x, le) + t.subrange(j as int, t.len() as int),
            ensures
                j <= out@.len(),
                j == 0 || le(t[j - 1], x),
                insert_sorted(t, x, le) == insert_sorted(t.take(j as int), x, le) + t.subrange(j as int, t.len() as int),
            decreases j,
        {
            if j == 0 {
                break;
            }
            if dex.moves[out[j - 1]].base_power >= dex.moves[x].base_power {
                break;
            }
            proof {
                lemma_insert_prefix(t, x, le, j as int);
            }
            j = j - 1;
        }
        proof {
            lemma_insert_stop(t, x, le, j as int);
        }
        out.insert(j, x);
        proof {
            assert(src.take(k + 1).drop_last() =~= src.take(k as int));
            assert(src.take(k + 1).last() == src[k as int]);
            assert forall|q: int| 0 <= q < out@.len() implies out@[q] < dex.moves@.len() by {
                if q < j {
                    assert(out@[q] == t[q]);
                } else if q > j {
                    assert(out@[q] == t[q - 1]);
                }
            }
        }
    }
    proof {
        assert(src.take(n as int) =~= src);
    }
    out
}

fn pick(dex: &SetDex, start: Vec<String>, ids: &Vec<usize>) -> (r: Vec<String>)
    requires
        forall|k: int| 0 <= k < ids@.len() ==> ids@[k] < dex.moves@.len(),
    ensures
        sv(r@) == picked(*dex, sv(start@), ids@).0,
{
    let ghost s0 = sv(start@);
    let mut l = start;
    let mut seen: Vec<String> = Vec::new();
    for k in 0..ids.len()
        invariant
            forall|q: int| 0 <= q < ids@.len() ==> ids@[q] < dex.moves@.len(),
            (sv(l@), sv(seen@)) == picked(*dex, s0, ids@.take(k as int)),
    {
        assert(ids@.take(k + 1).drop_last() =~= ids@.take(k as int));
        assert(ids@.take(k + 1).last() == ids@[k as int]);
        let mv = &dex.moves[ids[k]];
        if l.len() < 4 && !has_same_exec(&l, mv.name.as_str()) && !str_in(&seen, mv.move_type.as_str()) {
            let ghost bl = sv(l@);
            let ghost bs = sv(seen@);
            seen.push(String::from_str(mv.move_type.as_str()));
            l.push(String::from_str(mv.name.as_str()));
            assert(sv(l@) =~= bl.push(mv.name@));
            assert(sv(seen@) =~= bs.push(mv.move_type@));
        }
    }
    assert(ids@.take(ids@.len() as int) =~= ids@);
    l
}

fn stat(k: &str, v: u16) -> (r: (String, u16))
    ensures
        r.0@ == k@,
        r.1 == v,
{
    (String::from_str(k), v)
}

fn pad(dex: &SetDex, src: &SetSources, sp_key: &str, sp_name: &str, rev: &Vec<String>) -> (r: PokemonSet)
    requires
        forall|k: int| 0 <= k < src.hp_dvs@.len() ==> (#[trigger] src.hp_dvs@[k]).1.0 <= 0x7fff && src.hp_dvs@[k].1.1 <= 0x7fff,
    ensures
        set_view(r) == pad_set(*dex, *src, sp_key@, sp_name@, sv(rev@)),
{
    let empty: Vec<String> = Vec::new();
    let legal: &Vec<String> = match find_learnset(src, sp_key) {
        Some(j) => &src.learnsets[j].1,
        None => {
            assert(sv(empty@) =~= Seq::<Seq<char>>::empty());
            &empty
        },
    };
    let ids = sort_by_power(dex, scored(dex, legal));
    let moves = pick(dex, named_for_pad(dex, rev), &ids);
    let dv = find_ice(src);
    proof {
        lemma_ice_bounded(src.hp_dvs@, 0);
    }
    let mut ivs: Vec<(String, u16)> = Vec::new();
    proof {
        reveal_strlit("hiddenpower");
    }
    if str_in(rev, "hiddenpower") {
        ivs.push(stat("atk", dv.0 * 2));
        ivs.push(stat("def", dv.1 * 2));
    }
    let mut evs: Vec<(String, u16)> = Vec::new();
    evs.push(stat("hp", 255));
    evs.push(stat("atk", 255));
    evs.push(stat("def", 255));
    evs.push(stat("spa", 255));
    evs.push(stat("spd", 255));
    evs.push(stat("spe", 255));
    let r = PokemonSet {
        name: String::new(),
        species: String::from_str(sp_name),
        item: String::from_str("Leftovers"),
        ability: String::from_str("No Ability"),
        moves,
        level: 0,
        evs: Some(evs),
        ivs: Some(ivs),
        happiness: None,
        gender: None,
    };
    proof {
        assert(stats_v(r.evs).unwrap() =~= full_evs());
        assert(stats_v(r.ivs).unwrap() =~= (if sv(rev@).contains("hiddenpower"@) {
            seq![("atk"@, (dv.0 * 2) as u16), ("def"@, (dv.1 * 2) as u16)]
        } else {
            Seq::empty()
        }));
        assert(r.name@ =~= Seq::<char>::empty());
    }
    r
}

proof fn lemma_ice_bounded(dvs: Seq<(String, (u16, u16))>, i: int)
    requires
        0 <= i,
        forall|k: int| 0 <= k < dvs.len() ==> (#[trigger] dvs[k]).1.0 <= 0x7fff && dvs[k].1.1 <= 0x7fff,
    ensures
        ice_dvs(dvs, i).0 <= 0x7fff && ice_dvs(dvs, i).1 <= 0x7fff,
    decreases dvs.len() - i,
{
    if i < dvs.len() && dvs[i].0@ != "ice"@ {
        lemma_ice_bounded(dvs, i + 1);
    }
}


pub open spec fn opt_text(o: Option<&str>) -> Option<Seq<char>> {
    match o {
        Some(s) => Some(s@),
        None => None,
    }
}

fn gender_str(g: Gender) -> (s: String)
    ensures
        s@ == gender_text(g),
{
    proof {
        reveal_strlit("M");
        reveal_strlit("F");
        reveal_strlit("");
    }
    match g {
        Gender::M => String::from_str("M"),
        Gender::F => String::from_str("F"),
        Gender::N => String::new(),
    }
}

/// Fabricates the hidden set of a logged mon: the best candidate of its
/// species (whole when it explains every revealed move, else with the
/// revealed moves first, filled up to four from the candidate), or, with
/// no candidate, a learnset pad; with the mon's nickname, level and gender,
/// the known item, and no item once consumed.
pub fn fabricate_set(
    dex: &SetDex,
    src: &SetSources,
    m: &MonSnapshot,
    future: &[String],
    known_item: Option<&str>,
    consumed: bool,
) -> (r: (PokemonSet, Provenance))
    requires
        m.species < dex.species@.len(),
        forall|k: int| 0 <= k < m.uses@.len() ==> (#[trigger] m.uses@[k]).0 < dex.moves@.len(),
        forall|k: int| 0 <= k < src.hp_dvs@.len() ==> (#[trigger] src.hp_dvs@[k]).1.0 <= 0x7fff && src.hp_dvs@[k].1.1 <= 0x7fff,
    ensures
        (set_view(r.0), r.1) == fabricated(*dex, *src, *m, sv(future@), opt_text(known_item), consumed),
{
    let sp_key = dex.species[m.species].0.as_str();
    let sp_name = dex.species[m.species].1.as_str();
    let rev = revealed(dex, m, future);
    let empty: Vec<PokemonSet> = Vec::new();
    let cands: &Vec<PokemonSet> = match find_cands(src, m.species) {
        Some(j) => &src.by_species[j].1,
        None => &empty,
    };
    let (mut set, prov) = match best_cand(&rev, cands) {
        Some((_, true, i)) => (copy_set(&cands[i]), Provenance::CandFull),
        Some((_, false, i)) => {
            let mut c = copy_set(&cands[i]);
            let shown = display_all(dex, &rev);
            c.moves = fill(shown, &cands[i].moves);
            (c, Provenance::CandFill)
        },
        None => (pad(dex, src, sp_key, sp_name, &rev), Provenance::LearnsetPad),
    };
    set.name = if m.name.as_str().unicode_len() == 0 { String::from_str(sp_name) } else { String::from_str(m.name.as_str()) };
    set.level = m.level;
    set.gender = Some(gender_str(m.gender));
    match known_item {
        Some(it) => {
            set.item = String::from_str(it);
        },
        None => {},
    }
    if consumed {
        set.item = String::new();
    }
    proof {
        assert(set_view(set).moves == sv(set.moves@));
    }
    (set, prov)
}


// ------------------------------------------------------------ sources

/// The first species id keyed `k`, from `i` on.
pub open spec fn species_slot(sp: Seq<(String, String)>, k: Seq<char>, i: int) -> Option<int>
    decreases sp.len() - i,
{
    if i < 0 || i >= sp.len() {
        None
    } else if sp[i].0@ == k {
        Some(i)
    } else {
        species_slot(sp, k, i + 1)
    }
}

/// The candidate groups as plain values.
pub open spec fn groups_view(by: Seq<(usize, Vec<PokemonSet>)>) -> Seq<(usize, Seq<SetV>)> {
    by.map_values(|e: (usize, Vec<PokemonSet>)| (e.0, e.1@.map_values(|x: PokemonSet| set_view(x))))
}

/// The first group of species `id`, from `i` on.
pub open spec fn group_slot(b: Seq<(usize, Seq<SetV>)>, id: usize, i: int) -> Option<int>
    decreases b.len() - i,
{
    if i < 0 || i >= b.len() {
        None
    } else if b[i].0 == id {
        Some(i)
    } else {
        group_slot(b, id, i + 1)
    }
}

/// The groups with set `x` appended to species `id`'s group (a new group
/// at the end when there is none).
pub open spec fn with_set(b: Seq<(usize, Seq<SetV>)>, id: usize, x: SetV) -> Seq<(usize, Seq<SetV>)> {
    match group_slot(b, id, 0) {
        Some(g) => b.update(g, (id, b[g].1.push(x))),
        None => b.push((id, seq![x])),
    }
}

/// The groups after adding `sets` in order, each under the species its
/// name ids to; a set of a species the dex does not know is skipped.
pub open spec fn grouped(dex: SetDex, b: Seq<(usize, Seq<SetV>)>, sets: Seq<SetV>) -> Seq<(usize, Seq<SetV>)>
    decreases sets.len(),
{
    if sets.len() == 0 {
        b
    } else {
        let b1 = grouped(dex, b, sets.drop_last());
        let x = sets.last();
        match species_slot(dex.species@, to_id(x.species), 0) {
            Some(id) => with_set(b1, id as usize, x),
            None => b1,
        }
    }
}

proof fn lemma_slot_range<T>(b: Seq<(usize, T)>, id: usize, i: int)
    requires
        0 <= i,
    ensures
        group_slot_any(b, id, i) matches Some(g) ==> i <= g < b.len() && b[g].0 == id,
    decreases b.len() - i,
{
    if i < b.len() && b[i].0 != id {
        lemma_slot_range(b, id, i + 1);
    }
}

pub open spec fn group_slot_any<T>(b: Seq<(usize, T)>, id: usize, i: int) -> Option<int>
    decreases b.len() - i,
{
    if i < 0 || i >= b.len() {
        None
    } else if b[i].0 == id {
        Some(i)
    } else {
        group_slot_any(b, id, i + 1)
    }
}

proof fn lemma_group_slot_same(by: Seq<(usize, Vec<PokemonSet>)>, id: usize, i: int)
    ensures
        group_slot(groups_view(by), id, i) == group_slot_any(by, id, i),
    decreases by.len() - i,
{
    if 0 <= i < by.len() && by[i].0 != id {
        lemma_group_slot_same(by, id, i + 1);
    }
}

fn find_species(dex: &SetDex, k: &str) -> (r: Option<usize>)
    ensures
        match r {
            Some(j) => species_slot(dex.species@, k@, 0) == Some(j as int),
            None => species_slot(dex.species@, k@, 0) is None,
        },
{
    let mut i: usize = dex.species.len();
    let mut found: Option<usize> = None;
    while i > 0
        invariant
            i <= dex.species@.len(),
            match found {
                Some(f) => species_slot(dex.species@, k@, i as int) == Some(f as int),
                None => species_slot(dex.species@, k@, i as int) is None,
            },
        decreases i,
    {
        i = i - 1;
        if same_text(dex.species[i].0.as_str(), k) {
            found = Some(i);
        }
    }
    found
}

fn find_group(by: &Vec<(usize, Vec<PokemonSet>)>, id: usize) -> (r: Option<usize>)
    ensures
        match r {
            Some(g) => group_slot(groups_view(by@), id, 0) == Some(g as int) && g < by@.len() && by@[g as int].0 == id,
            None => group_slot(groups_view(by@), id, 0) is None,
        },
{
    let mut i: usize = by.len();
    let mut found: Option<usize> = None;
    while i > 0
        invariant
            i <= by@.len(),
            match found {
                Some(f) => group_slot_any(by@, id, i as int) == Some(f as int),
                None => group_slot_any(by@, id, i as int) is None,
            },
        decreases i,
    {
        i = i - 1;
        if by[i].0 == id {
            found = Some(i);
        }
    }
    proof {
        lemma_group_slot_same(by@, id, 0);
        lemma_slot_range(by@, id, 0);
    }
    found
}

/// Adds candidate sets in order, each to the group of the species its
/// name ids to; sets of species the dex does not know are skipped.
pub fn add_sets(by_species: &mut Vec<(usize, Vec<PokemonSet>)>, dex: &SetDex, sets: &Vec<PokemonSet>)
    ensures
        groups_view(final(by_species)@) == grouped(*dex, groups_view(old(by_species)@), sets@.map_values(|x: PokemonSet| set_view(x))),
{
    let ghost sv0 = sets@.map_values(|x: PokemonSet| set_view(x));
    let ghost b0 = groups_view(by_species@);
    for k in 0..sets.len()
        invariant
            sv0 == sets@.map_values(|x: PokemonSet| set_view(x)),
            b0 == groups_view(old(by_species)@),
            groups_view(by_species@) == grouped(*dex, b0, sv0.take(k as int)),
    {
        assert(sv0.take(k + 1).drop_last() =~= sv0.take(k as int));
        assert(sv0.take(k + 1).last() == set_view(sets@[k as int]));
        let key = toid(sets[k].species.as_str());
        match find_species(dex, key.as_str()) {
            Some(id) => {
                let x = copy_set(&sets[k]);
                let ghost xv = set_view(x);
                let ghost bb = groups_view(by_species@);
                match find_group(by_species, id) {
                    Some(g) => {
                        let ghost before = by_species@;
                        let mut grp: (usize, Vec<PokemonSet>) = (0, Vec::new());
                        by_species.set_and_swap(g, &mut grp);
                        assert(grp == before[g as int]);
                        let ghost gv = grp.1@.map_values(|y: PokemonSet| set_view(y));
                        assert(bb[g as int] == (id, gv));
                        grp.1.push(x);
                        assert(grp.1@.map_values(|y: PokemonSet| set_view(y)) =~= gv.push(xv));
                        by_species.set(g, grp);
                        assert(groups_view(by_species@) =~= bb.update(g as int, (id, bb[g as int].1.push(xv))));
                    },
                    None => {
                        let mut v: Vec<PokemonSet> = Vec::new();
                        v.push(x);
                        assert(v@.map_values(|y: PokemonSet| set_view(y)) =~= seq![xv]);
                        by_species.push((id, v));
                        assert(groups_view(by_species@) =~= bb.push((id, seq![xv])));
                    },
                }
            },
            None => {},
        }
    }
    assert(sv0.take(sets@.len() as int) =~= sv0);
}


// ---------------------------------------------------------- reconstruction

/// The three mons a side brought, as far as the log shows: the active
/// one, then every other mon that has appeared, in roster order, then
/// mons never seen, in roster order, to make three (`imputed` when any
/// were needed); `None` when the roster has fewer than three to offer.
pub open spec fn picks_upto(appeared: Seq<bool>, active: int, n: int) -> Seq<usize>
    decreases n,
{
    if n <= 0 {
        seq![active as usize]
    } else {
        let p = picks_upto(appeared, active, n - 1);
        if n - 1 != active && appeared[n - 1] { p.push((n - 1) as usize) } else { p }
    }
}

pub open spec fn fill_upto(appeared: Seq<bool>, start: Seq<usize>, n: int) -> Seq<usize>
    decreases n,
{
    if n <= 0 {
        start
    } else {
        let p = fill_upto(appeared, start, n - 1);
        if p.len() < 3 && !appeared[n - 1] { p.push((n - 1) as usize) } else { p }
    }
}

pub open spec fn picked_slots(appeared: Seq<bool>, active: int) -> Option<(Seq<usize>, bool)> {
    let seen = picks_upto(appeared, active, appeared.len() as int);
    let all = fill_upto(appeared, seen, appeared.len() as int);
    if all.len() < 3 {
        None
    } else {
        Some((all.take(3), all.len() > seen.len()))
    }
}

/// The brought mons' roster slots and whether any was imputed.
pub fn pick_slots(appeared: &[bool], active: usize) -> (r: Option<(Vec<usize>, bool)>)
    requires
        active < appeared@.len(),
    ensures
        match r {
            Some((v, imp)) => picked_slots(appeared@, active as int) == Some((v@, imp)),
            None => picked_slots(appeared@, active as int) is None,
        },
{
    let mut picked: Vec<usize> = Vec::new();
    picked.push(active);
    for i in 0..appeared.len()
        invariant
            active < appeared@.len(),
            picked@ == picks_upto(appeared@, active as int, i as int),
            picked@.len() <= i + 1,
    {
        if i != active && appeared[i] {
            picked.push(i);
        }
    }
    let ghost seen = picked@;
    let seen_len = picked.len();
    for i in 0..appeared.len()
        invariant
            seen == picks_upto(appeared@, active as int, appeared@.len() as int),
            seen_len == seen.len(),
            picked@ == fill_upto(appeared@, seen, i as int),
            picked@.len() <= seen.len() + i,
            picked@.len() >= seen.len(),
    {
        if picked.len() < 3 && !appeared[i] {
            picked.push(i);
        }
    }
    if picked.len() < 3 {
        return None;
    }
    let imputed = picked.len() > seen_len;
    let mut out: Vec<usize> = Vec::new();
    for k in 0..3usize
        invariant
            picked@.len() >= 3,
            out@ == picked@.take(k as int),
    {
        out.push(picked[k]);
        assert(picked@.take(k + 1) =~= picked@.take(k as int).push(picked@[k as int]));
    }
    Some((out, imputed))
}

/// The PP marks of the first use whose move ids to `pk` (plain), from `i`
/// on; 0 when none does.
pub open spec fn use_n(dex: SetDex, uses: Seq<(usize, i32)>, pk: Seq<char>, i: int) -> i32
    decreases uses.len() - i,
{
    if i < 0 || i >= uses.len() {
        0
    } else if plain_id(dex.moves@[uses[i].0 as int].key@) == pk {
        uses[i].1
    } else {
        use_n(dex, uses, pk, i + 1)
    }
}

/// The maximum PP of a known move: `pp * 8 / 5`.
pub open spec fn row_maxpp(dex: SetDex, key: Seq<char>) -> int {
    match move_slot(dex.moves@, key, 0) {
        Some(id) => (dex.moves@[id].pp * 8) / 5,
        None => 5,
    }
}

/// One request move row for the set's move `name`: its plain id, the
/// name, PP left (maximum PP less the marks, not below 0; 5 of 5 for a
/// move the dex does not know) and whether Encore or Disable rules it out.
pub open spec fn request_row(dex: SetDex, uses: Seq<(usize, i32)>, encore: Option<usize>, disable: Option<usize>, name: Seq<char>) -> (Seq<char>, Seq<char>, int, int, bool) {
    let key = to_id(name);
    let pk = plain_id(key);
    let pp = match move_slot(dex.moves@, key, 0) {
        Some(id) => {
            let left = row_maxpp(dex, key) - use_n(dex, uses, pk, 0);
            if left > 0 { left } else { 0 }
        },
        None => 5,
    };
    let disabled = match encore {
        Some(em) => plain_id(dex.moves@[em as int].key@) != pk,
        None => match disable {
            Some(dm) => plain_id(dex.moves@[dm as int].key@) == pk,
            None => false,
        },
    };
    (pk, name, pp, row_maxpp(dex, key), disabled)
}

pub open spec fn row_view(r: (String, String, i32, i32, bool)) -> (Seq<char>, Seq<char>, int, int, bool) {
    (r.0@, r.1@, r.2 as int, r.3 as int, r.4)
}

fn use_of(dex: &SetDex, uses: &Vec<(usize, i32)>, pk: &str) -> (r: i32)
    requires
        forall|k: int| 0 <= k < uses@.len() ==> (#[trigger] uses@[k]).0 < dex.moves@.len(),
    ensures
        r == use_n(*dex, uses@, pk@, 0),
{
    let mut i: usize = uses.len();
    let mut found: i32 = 0;
    while i > 0
        invariant
            i <= uses@.len(),
            forall|k: int| 0 <= k < uses@.len() ==> (#[trigger] uses@[k]).0 < dex.moves@.len(),
            found == use_n(*dex, uses@, pk@, i as int),
        decreases i,
    {
        i = i - 1;
        let p = plain(dex.moves[uses[i].0].key.as_str());
        if same_text(p.as_str(), pk) {
            found = uses[i].1;
        }
    }
    found
}

/// The request move rows of the active mon's set moves.
pub fn request_rows(
    dex: &SetDex,
    moves: &Vec<String>,
    uses: &Vec<(usize, i32)>,
    encore: Option<usize>,
    disable: Option<usize>,
) -> (r: Vec<(String, String, i32, i32, bool)>)
    requires
        forall|k: int| 0 <= k < uses@.len() ==> (#[trigger] uses@[k]).0 < dex.moves@.len(),
        encore matches Some(e) ==> e < dex.moves@.len(),
        disable matches Some(d) ==> d < dex.moves@.len(),
        forall|k: int| 0 <= k < moves@.len() ==> {
            let key = to_id(#[trigger] moves@[k]@);
            move_slot(dex.moves@, key, 0) is Some ==> row_maxpp(*dex, key) - use_n(*dex, uses@, plain_id(key), 0) <= i32::MAX
        },
    ensures
        r@.len() == moves@.len(),
        forall|k: int| 0 <= k < r@.len() ==> row_view(#[trigger] r@[k]) == request_row(*dex, uses@, encore, disable, moves@[k]@),
{
    let mut out: Vec<(String, String, i32, i32, bool)> = Vec::new();
    for i in 0..moves.len()
        invariant
            forall|k: int| 0 <= k < uses@.len() ==> (#[trigger] uses@[k]).0 < dex.moves@.len(),
            encore matches Some(e) ==> e < dex.moves@.len(),
            disable matches Some(d) ==> d < dex.moves@.len(),
            forall|k: int| 0 <= k < moves@.len() ==> {
                let key = to_id(#[trigger] moves@[k]@);
                move_slot(dex.moves@, key, 0) is Some ==> row_maxpp(*dex, key) - use_n(*dex, uses@, plain_id(key), 0) <= i32::MAX
            },
            out@.len() == i,
            forall|k: int| 0 <= k < i ==> row_view(#[trigger] out@[k]) == request_row(*dex, uses@, encore, disable, moves@[k]@),
    {
        let name = moves[i].as_str();
        let key = toid(name);
        let pk = plain(key.as_str());
        let (pp, maxpp): (i32, i32) = match find_move(dex, key.as_str()) {
            Some(id) => {
                let mx: i32 = (dex.moves[id].pp as i32) * 8 / 5;
                let n = use_of(dex, uses, pk.as_str());
                let left: i64 = mx as i64 - n as i64;
                (if left > 0 { left as i32 } else { 0 }, mx)
            },
            None => (5, 5),
        };
        let disabled = match encore {
            Some(em) => {
                let e = plain(dex.moves[em].key.as_str());
                !same_text(e.as_str(), pk.as_str())
            },
            None => match disable {
                Some(dm) => {
                    let d = plain(dex.moves[dm].key.as_str());
                    same_text(d.as_str(), pk.as_str())
                },
                None => false,
            },
        };
        out.push((pk, String::from_str(name), pp, maxpp, disabled));
    }
    out
}

} // verus!
