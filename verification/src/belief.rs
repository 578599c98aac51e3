//! The belief over the opponent's hidden sets: which meta-pool candidate
//! teams stay consistent with what has been observed, how a candidate's
//! mons align to the observed roster, the fallback synthesis policy for
//! mons no candidate explains, and the format's learnset acceptance rule.

use vstd::prelude::*;

use crate::protocol::{chars_of, eq_chars};
use crate::text::{has_prefix, plain_id};
use crate::observe::{Gender, MonObs};

verus! {

/// Hidden-set synthesis policy after every meta-pool candidate has been
/// rejected. `Layered` is the shipped policy; `LegacyMetaOnly` is an
/// evaluation control reproducing the old meta-only path.
#[derive(Clone, Copy, Debug)]
pub enum FallbackPolicy {
    LegacyMetaOnly,
    Layered,
}

impl FallbackPolicy {
    pub fn id(self) -> (s: &'static str)
        ensures
            s@ == match self {
                FallbackPolicy::LegacyMetaOnly => "legacy-meta-only-v1"@,
                FallbackPolicy::Layered => "layered-meta-rentals-learnset-v1"@,
            },
    {
        match self {
            FallbackPolicy::LegacyMetaOnly => "legacy-meta-only-v1",
            FallbackPolicy::Layered => "layered-meta-rentals-learnset-v1",
        }
    }
}

impl Default for FallbackPolicy {
    fn default() -> (p: Self)
        ensures
            p == FallbackPolicy::Layered,
    {
        FallbackPolicy::Layered
    }
}

/// The per-mon source fallback synthesis selects.
#[derive(Clone, Copy, Debug)]
pub enum FallbackSource {
    Meta,
    CommunityRental,
    Learnset,
    LegacyEmpty,
}

impl FallbackSource {
    pub fn id(self) -> (s: &'static str)
        ensures
            s@ == match self {
                FallbackSource::Meta => "meta"@,
                FallbackSource::CommunityRental => "community-rental"@,
                FallbackSource::Learnset => "learnset"@,
                FallbackSource::LegacyEmpty => "legacy-empty"@,
            },
    {
        match self {
            FallbackSource::Meta => "meta",
            FallbackSource::CommunityRental => "community-rental",
            FallbackSource::Learnset => "learnset",
            FallbackSource::LegacyEmpty => "legacy-empty",
        }
    }
}

/// The source a mon's fallback set comes from: the meta pool when some
/// candidate team carries its species; otherwise nothing under the legacy
/// control; otherwise the community rentals when they carry it, else its
/// learnset.
pub open spec fn fallback_source_spec(policy: FallbackPolicy, in_meta: bool, in_rentals: bool) -> FallbackSource {
    if in_meta {
        FallbackSource::Meta
    } else {
        match policy {
            FallbackPolicy::LegacyMetaOnly => FallbackSource::LegacyEmpty,
            FallbackPolicy::Layered => if in_rentals {
                FallbackSource::CommunityRental
            } else {
                FallbackSource::Learnset
            },
        }
    }
}

/// Selects the fallback source from whether the meta pool and the
/// community rentals carry the mon's species.
pub fn fallback_source(policy: FallbackPolicy, in_meta: bool, in_rentals: bool) -> (s: FallbackSource)
    ensures
        s == fallback_source_spec(policy, in_meta, in_rentals),
{
    if in_meta {
        return FallbackSource::Meta;
    }
    match policy {
        FallbackPolicy::LegacyMetaOnly => FallbackSource::LegacyEmpty,
        FallbackPolicy::Layered => if in_rentals {
            FallbackSource::CommunityRental
        } else {
            FallbackSource::Learnset
        },
    }
}

// ------------------------------------------------------------- learnsets

/// One species' entry of the format's learnset table: the moves it
/// accepts, and the minimum level some of them need.
#[derive(Debug)]
pub struct FormatLearnset {
    pub species: String,
    pub moves: Vec<String>,
    pub move_min_level: Vec<(String, i64)>,
}

pub open spec fn texts(v: Seq<String>) -> Seq<Seq<char>> {
    v.map_values(|s: String| s@)
}

/// The minimum level the table asks of a move (its first entry), if any.
pub open spec fn min_level_of(t: Seq<(String, i64)>, m: Seq<char>) -> Option<i64>
    decreases t.len(),
{
    if t.len() == 0 {
        None
    } else if t[0].0@ == m {
        Some(t[0].1)
    } else {
        min_level_of(t.skip(1), m)
    }
}

/// Whether a move is format-legal for a species at a level: the species
/// has a learnset that accepts the move (typed Hidden Powers as plain
/// `hiddenpower`) and the level meets any minimum level the move has.
pub open spec fn legal_at_level(ls: Option<FormatLearnset>, move_id: Seq<char>, level: u8) -> bool {
    match ls {
        None => false,
        Some(l) => {
            let base = plain_id(move_id);
            &&& texts(l.moves@).contains(base)
            &&& match min_level_of(l.move_min_level@, base) {
                Some(min) => level as int >= min,
                None => true,
            }
        },
    }
}

/// The first learnset entry of a species, if any.
pub open spec fn learnset_of(table: Seq<FormatLearnset>, species: Seq<char>) -> Option<FormatLearnset>
    decreases table.len(),
{
    if table.len() == 0 {
        None
    } else if table[0].species@ == species {
        Some(table[0])
    } else {
        learnset_of(table.skip(1), species)
    }
}

fn find_learnset(table: &Vec<FormatLearnset>, species: &str) -> (r: Option<usize>)
    ensures
        match r {
            Some(i) => i < table@.len() && learnset_of(table@, species@) == Some(table@[i as int]),
            None => learnset_of(table@, species@) is None,
        },
{
    let sp = chars_of(species);
    let mut i: usize = 0;
    assert(table@.skip(0) =~= table@);
    while i < table.len()
        invariant
            i <= table@.len(),
            sp@ == species@,
            learnset_of(table@, species@) == learnset_of(table@.skip(i as int), species@),
        decreases table@.len() - i,
    {
        assert(table@.skip(i as int)[0] == table@[i as int]);
        assert(table@.skip(i as int).skip(1) =~= table@.skip(i + 1));
        let name = chars_of(table[i].species.as_str());
        if eq_chars(&name, &sp) {
            return Some(i);
        }
        i = i + 1;
    }
    None
}

fn contains_text(v: &Vec<String>, m: &[char]) -> (r: bool)
    ensures
        r == texts(v@).contains(m@),
{
    for i in 0..v.len()
        invariant
            forall|j: int| 0 <= j < i ==> v@[j]@ != m@,
    {
        let c = chars_of(v[i].as_str());
        if eq_chars(&c, m) {
            assert(texts(v@)[i as int] == m@);
            return true;
        }
    }
    assert forall|j: int| 0 <= j < texts(v@).len() implies texts(v@)[j] != m@ by {
        assert(texts(v@)[j] == v@[j]@);
    }
    false
}

fn min_level(t: &Vec<(String, i64)>, m: &[char]) -> (r: Option<i64>)
    ensures
        r == min_level_of(t@, m@),
{
    let mut i: usize = 0;
    assert(t@.skip(0) =~= t@);
    while i < t.len()
        invariant
            i <= t@.len(),
            min_level_of(t@, m@) == min_level_of(t@.skip(i as int), m@),
        decreases t@.len() - i,
    {
        assert(t@.skip(i as int)[0] == t@[i as int]);
        assert(t@.skip(i as int).skip(1) =~= t@.skip(i + 1));
        let c = chars_of(t[i].0.as_str());
        if eq_chars(&c, m) {
            return Some(t[i].1);
        }
        i = i + 1;
    }
    None
}

/// Whether the format accepts `move_id` for `species_id` at `level`.
pub fn format_move_legal_at_level(table: &Vec<FormatLearnset>, species_id: &str, move_id: &str, level: u8) -> (r: bool)
    ensures
        r == legal_at_level(learnset_of(table@, species_id@), move_id@, level),
{
    match find_learnset(table, species_id) {
        None => false,
        Some(i) => {
            let l = &table[i];
            let base: Vec<char> = if crate::text::starts_with(move_id, "hiddenpower") {
                chars_of("hiddenpower")
            } else {
                chars_of(move_id)
            };
            assert(base@ == plain_id(move_id@));
            if !contains_text(&l.moves, &base) {
                return false;
            }
            match min_level(&l.move_min_level, &base) {
                Some(min) => level as i64 >= min,
                None => true,
            }
        },
    }
}


// ------------------------------------------------------------ candidates

/// One mon of a candidate team, as the filter reads it.
#[derive(Debug)]
pub struct RefMon {
    pub species: usize,
    pub level: u8,
    pub gender: Gender,
    pub item: Option<usize>,
    /// The set's move ids.
    pub moves: Vec<usize>,
}

/// A set's move `slot` accounts for the revealed move `rev`: the same move,
/// or a plain `hiddenpower` reveal against any typed Hidden Power.
pub open spec fn move_matches_spec(keys: Seq<String>, slot: usize, rev: usize) -> bool {
    slot == rev || (rev < keys.len() && slot < keys.len() && keys[rev as int]@ == "hiddenpower"@
        && has_prefix(keys[slot as int]@, "hiddenpower"@))
}

pub fn move_matches(keys: &Vec<String>, slot: usize, rev: usize) -> (r: bool)
    ensures
        r == move_matches_spec(keys@, slot, rev),
{
    if slot == rev {
        return true;
    }
    if rev < keys.len() && slot < keys.len() {
        let r = chars_of(keys[rev].as_str());
        let hp = chars_of("hiddenpower");
        proof {
            reveal_strlit("hiddenpower");
        }
        eq_chars(&r, &hp) && crate::text::starts_with(keys[slot].as_str(), "hiddenpower")
    } else {
        false
    }
}

/// The candidate mon explains what is known of the observed one: every
/// revealed move is one of its moves, and a known original item is its
/// item.
pub open spec fn fits(keys: Seq<String>, r: RefMon, mo: MonObs) -> bool {
    &&& forall|j: int| 0 <= j < mo.revealed_moves@.len() ==> #[trigger] covered(keys, r.moves@, mo.revealed_moves@[j])
    &&& match mo.item.original {
        Some(orig) => r.item == orig,
        None => true,
    }
}

/// Some move of `moves` accounts for the revealed move `m`.
pub open spec fn covered(keys: Seq<String>, moves: Seq<usize>, m: usize) -> bool {
    exists|k: int| 0 <= k < moves.len() && #[trigger] move_matches_spec(keys, moves[k], m)
}

/// Every candidate mon fits the observed mon in the same slot (pairs up to
/// the shorter list).
pub open spec fn consistent_spec(keys: Seq<String>, refs: Seq<RefMon>, mons: Seq<MonObs>) -> bool {
    forall|i: int| 0 <= i < refs.len() && i < mons.len() ==> #[trigger] fits(keys, refs[i], mons[i])
}

fn fits_exec(keys: &Vec<String>, r: &RefMon, mo: &MonObs) -> (b: bool)
    ensures
        b == fits(keys@, *r, *mo),
{
    for j in 0..mo.revealed_moves.len()
        invariant
            forall|jj: int| 0 <= jj < j ==> #[trigger] covered(keys@, r.moves@, mo.revealed_moves@[jj]),
    {
        let m = mo.revealed_moves[j];
        let mut found = false;
        for k in 0..r.moves.len()
            invariant
                m == mo.revealed_moves@[j as int],
                found ==> covered(keys@, r.moves@, m),
                !found ==> forall|kk: int| 0 <= kk < k ==> !#[trigger] move_matches_spec(keys@, r.moves@[kk], m),
        {
            if !found && move_matches(keys, r.moves[k], m) {
                found = true;
            }
        }
        if !found {
            assert(!covered(keys@, r.moves@, mo.revealed_moves@[j as int]));
            return false;
        }
    }
    match mo.item.original {
        Some(orig) => match (r.item, orig) {
            (Some(a), Some(b)) => a == b,
            (None, None) => true,
            _ => false,
        },
        None => true,
    }
}

/// A revealed move `rev` is accounted for by a move of `moves`, spelled out.
pub open spec fn accounts_for(keys: Seq<String>, moves: Seq<usize>, rev: usize) -> bool {
    exists|k: int| #![trigger moves[k]]
        0 <= k < moves.len() && (moves[k] == rev || (rev < keys.len() && moves[k] < keys.len()
            && keys[rev as int]@ == "hiddenpower"@ && has_prefix(keys[moves[k] as int]@, "hiddenpower"@)))
}

proof fn lemma_fits_spelled_out(keys: Seq<String>, r: RefMon, mo: MonObs)
    ensures
        fits(keys, r, mo) <==> {
            &&& forall|j: int| 0 <= j < mo.revealed_moves@.len() ==> accounts_for(keys, r.moves@, #[trigger] mo.revealed_moves@[j])
            &&& (mo.item.original matches Some(o) ==> r.item == o)
        },
{
    assert forall|j: int| 0 <= j < mo.revealed_moves@.len() implies (covered(keys, r.moves@, mo.revealed_moves@[j])
        <==> accounts_for(keys, r.moves@, mo.revealed_moves@[j])) by {
        let m = mo.revealed_moves@[j];
        if covered(keys, r.moves@, m) {
            let k = choose|k: int| 0 <= k < r.moves@.len() && #[trigger] move_matches_spec(keys, r.moves@[k], m);
            assert(move_matches_spec(keys, r.moves@[k], m));
        }
        if accounts_for(keys, r.moves@, m) {
            let k = choose|k: int| #![trigger r.moves@[k]] 0 <= k < r.moves@.len() && (r.moves@[k] == m || (m < keys.len()
                && r.moves@[k] < keys.len() && keys[m as int]@ == "hiddenpower"@ && has_prefix(keys[r.moves@[k] as int]@, "hiddenpower"@)));
            assert(move_matches_spec(keys, r.moves@[k], m));
        }
    }
}

proof fn lemma_consistent_spelled_out(keys: Seq<String>, refs: Seq<RefMon>, mons: Seq<MonObs>)
    ensures
        consistent_spec(keys, refs, mons) <==> forall|i: int| #![trigger refs[i], mons[i]] 0 <= i < refs.len() && i < mons.len() ==> {
            &&& forall|j: int| 0 <= j < mons[i].revealed_moves@.len()
                ==> accounts_for(keys, refs[i].moves@, #[trigger] mons[i].revealed_moves@[j])
            &&& (mons[i].item.original matches Some(o) ==> refs[i].item == o)
        },
{
    if consistent_spec(keys, refs, mons) {
        assert forall|i: int| #![trigger refs[i], mons[i]] 0 <= i < refs.len() && i < mons.len() implies {
            &&& forall|j: int| 0 <= j < mons[i].revealed_moves@.len()
                ==> accounts_for(keys, refs[i].moves@, #[trigger] mons[i].revealed_moves@[j])
            &&& (mons[i].item.original matches Some(o) ==> refs[i].item == o)
        } by {
            assert(fits(keys, refs[i], mons[i]));
            lemma_fits_spelled_out(keys, refs[i], mons[i]);
        }
    } else {
        let i = choose|i: int| 0 <= i < refs.len() && i < mons.len() && !#[trigger] fits(keys, refs[i], mons[i]);
        lemma_fits_spelled_out(keys, refs[i], mons[i]);
    }
}

/// The candidate's mons all fit the observed roster.
pub fn consistent(keys: &Vec<String>, refs: &[RefMon], mons: &[MonObs]) -> (r: bool)
    ensures
        r == consistent_spec(keys@, refs@, mons@),
        r <==> forall|i: int| #![trigger refs@[i], mons@[i]] 0 <= i < refs@.len() && i < mons@.len() ==> {
            &&& forall|j: int| 0 <= j < mons@[i].revealed_moves@.len()
                ==> accounts_for(keys@, refs@[i].moves@, #[trigger] mons@[i].revealed_moves@[j])
            &&& (mons@[i].item.original matches Some(o) ==> refs@[i].item == o)
        },
{
    proof {
        lemma_consistent_spelled_out(keys@, refs@, mons@);
    }
    let n = if refs.len() < mons.len() { refs.len() } else { mons.len() };
    for i in 0..n
        invariant
            n <= refs@.len(),
            n <= mons@.len(),
            n == refs@.len() || n == mons@.len(),
            forall|ii: int| 0 <= ii < i ==> #[trigger] fits(keys@, refs@[ii], mons@[ii]),
    {
        if !fits_exec(keys, &refs[i], &mons[i]) {
            proof {
                lemma_consistent_spelled_out(keys@, refs@, mons@);
            }
            return false;
        }
    }
    true
}

/// The pool indices of the candidates that were built (`Some`) and are
/// consistent with the observations, ascending.
pub open spec fn alive_spec(keys: Seq<String>, cands: Seq<Option<Vec<RefMon>>>, mons: Seq<MonObs>, n: int) -> Seq<usize>
    decreases n,
{
    if n <= 0 {
        Seq::empty()
    } else {
        let rest = alive_spec(keys, cands, mons, n - 1);
        match cands[n - 1] {
            Some(refs) => if consistent_spec(keys, refs@, mons) { rest.push((n - 1) as usize) } else { rest },
            None => rest,
        }
    }
}

/// The belief filter: the candidates still alive.
pub fn alive_candidates(keys: &Vec<String>, cands: &Vec<Option<Vec<RefMon>>>, mons: &[MonObs]) -> (out: Vec<usize>)
    ensures
        out@ == alive_spec(keys@, cands@, mons@, cands@.len() as int),
{
    let mut out: Vec<usize> = Vec::new();
    for i in 0..cands.len()
        invariant
            out@ == alive_spec(keys@, cands@, mons@, i as int),
    {
        match &cands[i] {
            Some(refs) => {
                if consistent(keys, refs.as_slice(), mons) {
                    out.push(i);
                }
            },
            None => {},
        }
    }
    out
}

/// What `obs` has seen is all still seen in `later`: the same roster, each
/// revealed move still revealed, each known original item unchanged.
pub open spec fn observed_within(obs: Seq<MonObs>, later: Seq<MonObs>) -> bool {
    &&& obs.len() == later.len()
    &&& forall|i: int, j: int| 0 <= i < obs.len() && 0 <= j < obs[i].revealed_moves@.len() ==>
        later[i].revealed_moves@.contains(#[trigger] obs[i].revealed_moves@[j])
    &&& forall|i: int| 0 <= i < obs.len() ==> ((#[trigger] obs[i]).item.original is Some ==> later[i].item.original == obs[i].item.original)
}

/// Law: observations only rule candidates out: a candidate consistent with
/// later observations was consistent with the earlier ones.
pub proof fn lemma_consistency_survives_less_knowledge(keys: Seq<String>, refs: Seq<RefMon>, obs: Seq<MonObs>, later: Seq<MonObs>)
    requires
        observed_within(obs, later),
        consistent_spec(keys, refs, later),
    ensures
        consistent_spec(keys, refs, obs),
{
    assert forall|i: int| 0 <= i < refs.len() && i < obs.len() implies #[trigger] fits(keys, refs[i], obs[i]) by {
        assert(fits(keys, refs[i], later[i]));
        assert forall|j: int| 0 <= j < obs[i].revealed_moves@.len() implies #[trigger] covered(keys, refs[i].moves@, obs[i].revealed_moves@[j]) by {
            let m = obs[i].revealed_moves@[j];
            assert(later[i].revealed_moves@.contains(m));
            let jj = choose|jj: int| 0 <= jj < later[i].revealed_moves@.len() && later[i].revealed_moves@[jj] == m;
            assert(covered(keys, refs[i].moves@, later[i].revealed_moves@[jj]));
        }
    }
}

proof fn lemma_alive_shrinks_at(keys: Seq<String>, cands: Seq<Option<Vec<RefMon>>>, obs: Seq<MonObs>, later: Seq<MonObs>, n: int)
    requires
        observed_within(obs, later),
        0 <= n <= cands.len(),
    ensures
        forall|x: usize| alive_spec(keys, cands, later, n).contains(x) ==> alive_spec(keys, cands, obs, n).contains(x),
    decreases n,
{
    if n > 0 {
        lemma_alive_shrinks_at(keys, cands, obs, later, n - 1);
        match cands[n - 1] {
            Some(refs) => {
                if consistent_spec(keys, refs@, later) {
                    lemma_consistency_survives_less_knowledge(keys, refs@, obs, later);
                }
            },
            None => {},
        }
        let a = alive_spec(keys, cands, later, n);
        let b = alive_spec(keys, cands, obs, n);
        let a0 = alive_spec(keys, cands, later, n - 1);
        let b0 = alive_spec(keys, cands, obs, n - 1);
        assert forall|x: usize| a.contains(x) implies b.contains(x) by {
            if a0.contains(x) {
                let k = choose|k: int| 0 <= k < a0.len() && a0[k] == x;
                assert(b0.contains(x));
                let k2 = choose|k: int| 0 <= k < b0.len() && b0[k] == x;
                assert(b[k2] == x);
            } else {
                assert(x == (n - 1) as usize);
                assert(b.last() == x);
            }
        }
    }
}

/// Law: the set of alive candidates never grows as observations accumulate.
pub proof fn lemma_alive_never_grows(keys: Seq<String>, cands: Seq<Option<Vec<RefMon>>>, obs: Seq<MonObs>, later: Seq<MonObs>)
    requires
        observed_within(obs, later),
    ensures
        forall|x: usize| alive_spec(keys, cands, later, cands.len() as int).contains(x) ==> alive_spec(keys, cands, obs, cands.len() as int).contains(x),
{
    lemma_alive_shrinks_at(keys, cands, obs, later, cands.len() as int);
}

// -------------------------------------------------------------- alignment

/// The candidate mon can stand in the observed roster slot: the same
/// species, level and gender, and an item exactly when preview showed one.
pub open spec fn aligns(r: RefMon, mo: MonObs) -> bool {
    r.species == mo.species && r.level == mo.level && r.gender == mo.gender && (r.item is Some) == mo.preview_has_item
}

/// The first candidate mon from `i` on, not yet used, that aligns to `mo`.
pub open spec fn first_free(roster: Seq<RefMon>, mo: MonObs, used: Seq<usize>, i: int) -> Option<int>
    decreases roster.len() - i,
{
    if i < 0 || i >= roster.len() {
        None
    } else if aligns(roster[i], mo) && !used.contains(i as usize) {
        Some(i)
    } else {
        first_free(roster, mo, used, i + 1)
    }
}

/// Each observed mon from `k` on takes the first free aligned candidate
/// mon, after those in `used`.
pub open spec fn align_from(roster: Seq<RefMon>, mons: Seq<MonObs>, k: int, used: Seq<usize>) -> Option<Seq<usize>>
    decreases mons.len() - k,
{
    if k < 0 || k >= mons.len() {
        Some(used)
    } else {
        match first_free(roster, mons[k], used, 0) {
            Some(i) => align_from(roster, mons, k + 1, used.push(i as usize)),
            None => None,
        }
    }
}

/// The candidate team aligned to the observed roster: for each observed
/// slot, the index of the candidate mon standing in it; `None` when the
/// sizes differ or some slot has no aligned mon left.
pub open spec fn align_spec(roster: Seq<RefMon>, mons: Seq<MonObs>) -> Option<Seq<usize>> {
    if roster.len() != mons.len() {
        None
    } else {
        align_from(roster, mons, 0, Seq::empty())
    }
}

fn aligns_exec(r: &RefMon, mo: &MonObs) -> (b: bool)
    ensures
        b == aligns(*r, *mo),
{
    let g = match (r.gender, mo.gender) {
        (Gender::M, Gender::M) => true,
        (Gender::F, Gender::F) => true,
        (Gender::N, Gender::N) => true,
        _ => false,
    };
    r.species == mo.species && r.level == mo.level && g && r.item.is_some() == mo.preview_has_item
}

fn used_has(used: &Vec<usize>, i: usize) -> (b: bool)
    ensures
        b == used@.contains(i),
{
    for k in 0..used.len()
        invariant
            forall|kk: int| 0 <= kk < k ==> used@[kk] != i,
    {
        if used[k] == i {
            return true;
        }
    }
    false
}

proof fn lemma_first_free(roster: Seq<RefMon>, mo: MonObs, used: Seq<usize>, i: int)
    requires
        0 <= i,
    ensures
        first_free(roster, mo, used, i) matches Some(k) ==> i <= k < roster.len(),
    decreases roster.len() - i,
{
    if i < roster.len() && !(aligns(roster[i], mo) && !used.contains(i as usize)) {
        lemma_first_free(roster, mo, used, i + 1);
    }
}

/// Aligns a candidate team's mons to the observed roster slots.
pub fn align_refs(roster: &[RefMon], mons: &[MonObs]) -> (out: Option<Vec<usize>>)
    ensures
        match out {
            Some(v) => align_spec(roster@, mons@) == Some(v@),
            None => align_spec(roster@, mons@) is None,
        },
{
    if roster.len() != mons.len() {
        return None;
    }
    let mut used: Vec<usize> = Vec::new();
    for k in 0..mons.len()
        invariant
            align_from(roster@, mons@, 0, Seq::empty()) == align_from(roster@, mons@, k as int, used@),
    {
        let mut i: usize = roster.len();
        let mut found: Option<usize> = None;
        while i > 0
            invariant
                i <= roster@.len(),
                k < mons@.len(),
                match found {
                    Some(f) => first_free(roster@, mons@[k as int], used@, i as int) == Some(f as int),
                    None => first_free(roster@, mons@[k as int], used@, i as int) is None,
                },
            decreases i,
        {
            i = i - 1;
            if aligns_exec(&roster[i], &mons[k]) && !used_has(&used, i) {
                found = Some(i);
            }
        }
        proof {
            lemma_first_free(roster@, mons@[k as int], used@, 0);
        }
        match found {
            Some(f) => {
                used.push(f);
            },
            None => {
                return None;
            },
        }
    }
    Some(used)
}

} // verus!
