//! Hand-entered positions: a complete, human-writable description of one
//! decision point — the analyzing side's own sets exactly, the opponent by
//! public facts only — and the structural checks a position must pass
//! before anything is built from it.
//!
//! Ids cross the boundary as keys, not indices (`"thunderbolt"`, not a
//! move number): a saved position must not be reinterpreted by a dex
//! reordering.

use vstd::prelude::*;

use crate::text::{
    decimal, has_prefix, plain_id, push_char, push_decimal, same_text, starts_with, to_id, toid,
};

verus! {

/// Schema tag stamped on every spec this build writes, and the only one it
/// accepts.
pub const SCHEMA: &'static str = "nc2000-position-v1";

/// NC2000 brings three of six.
pub const PICKS: usize = 3;

/// One team member as submitted (the engine's set description).
#[derive(Debug)]
pub struct PokemonSet {
    pub name: String,
    pub species: String,
    pub item: String,
    pub ability: String,
    pub moves: Vec<String>,
    pub level: u8,
    pub evs: Option<Vec<(String, u16)>>,
    pub ivs: Option<Vec<(String, u16)>>,
    pub happiness: Option<u8>,
    pub gender: Option<String>,
}

/// One decision point, described entirely in public terms plus the
/// analyzing side's own (private, exact) sets.
#[derive(Debug)]
pub struct PositionSpec {
    /// Must equal [`SCHEMA`].
    pub schema: String,
    /// The side being solved for (0 = p1). Its sets are known exactly.
    pub side: usize,
    pub turn: u16,
    /// The turn's residual phase has already run.
    pub upkeep_this_turn: bool,
    /// The analyzing side's six sets, in team-preview order.
    pub own_sets: Vec<PokemonSet>,
    /// Absolute side order: `sides[0]` is p1 whatever `side` is.
    pub sides: [SideSpec; 2],
    pub weather: Option<WeatherSpec>,
    /// The decision point is team preview.
    pub team_preview: bool,
    /// The request is a forced switch.
    pub force_switch: bool,
    /// The active cannot switch out.
    pub trapped: bool,
}

#[derive(Debug)]
pub struct WeatherSpec {
    /// Condition key: `raindance` / `sunnyday` / `sandstorm` / `hail`.
    pub key: String,
    /// Upkeeps seen since it was set.
    pub upkeeps: u16,
}

#[derive(Debug)]
pub struct SideSpec {
    /// Roster order = team-preview order.
    pub mons: Vec<MonSpec>,
    /// Roster slot of the active mon.
    pub active: Option<usize>,
    /// Display order of the picked party as roster slots; empty = derive it.
    pub party: Vec<usize>,
    pub conditions: Vec<CondSpec>,
    pub pending_bp: bool,
    pub acted_this_turn: bool,
    pub fainted_this_turn: Option<usize>,
    pub fainted_last_turn: Option<usize>,
    pub last_move: Option<String>,
}

#[derive(Debug)]
pub struct CondSpec {
    pub key: String,
    pub start_turn: u16,
}

#[derive(Debug)]
pub struct VolSpec {
    /// Engine condition key (`confusion`, `substitute`, `leechseed`, ...).
    pub key: String,
    pub start_turn: u16,
    /// encore/disable: the locked move; partiallytrapped: the binding move.
    pub move_key: Option<String>,
    /// `[side, slot]` of the volatile's source, when it matters.
    pub source: Option<[usize; 2]>,
    /// perishsong: remaining count.
    pub counter: Option<i64>,
}

/// A move and a count — PP marks (`uses`) and the thrash-lock progress.
#[derive(Debug)]
pub struct UseSpec {
    pub move_key: String,
    pub n: i32,
}

/// The analyzing side's authoritative per-move PP.
#[derive(Debug)]
pub struct PpSpec {
    pub move_key: String,
    pub pp: i32,
    pub maxpp: i32,
    pub disabled: bool,
}

/// What is publicly known about one opponent mon's item: `known == false`
/// is "no idea"; `known == true` with `item: None` is "known to hold
/// nothing".
#[derive(Debug)]
pub struct ItemKnowledge {
    pub known: bool,
    pub item: Option<String>,
}

/// One roster mon. Every field is either publicly announced or (own side)
/// exactly known to the player typing it in.
#[derive(Debug)]
pub struct MonSpec {
    pub species: String,
    pub level: u8,
    pub gender: String,
    pub name: String,
    pub item_flag: bool,
    pub appeared: bool,
    pub appear_count: i32,
    pub switch_in_turn: u16,
    pub active: bool,
    pub fainted: bool,
    /// Announced HP as `hp_num / hp_den`.
    pub hp_num: i32,
    pub hp_den: i32,
    /// Own side only: exact current HP.
    pub hp_exact: Option<i32>,
    pub status: String,
    pub rest: bool,
    pub slept: i32,
    pub tox_counter: Option<i32>,
    pub comp_brn: bool,
    pub comp_par: bool,
    /// atk, def, spa, spd, spe, accuracy, evasion.
    pub boosts: [i8; 7],
    pub volatiles: Vec<VolSpec>,
    /// PP marks: how often each move has been publicly used.
    pub uses: Vec<UseSpec>,
    /// Own side: the request's per-move PP; empty = derive it.
    pub pp: Vec<PpSpec>,
    pub item_now: Option<String>,
    pub locked: Option<UseSpec>,
    pub charging: Option<String>,
    pub must_recharge: bool,
    pub transformed_into: Option<[usize; 2]>,
    pub mimic_overlay: Option<String>,
    pub last_move: Option<String>,
    pub stall_streak: i32,
    pub last_protect_turn: u16,
    pub protected_this_turn: bool,
    pub revealed_moves: Vec<String>,
    pub item_original: ItemKnowledge,
    pub item_current: ItemKnowledge,
    pub item_gained: bool,
}

/// Default announced HP numerator: full.
pub fn full_hp() -> (r: i32)
    ensures
        r == 100,
{
    100
}

/// Default announced HP denominator: HP Percentage Mod.
pub fn hp_den_default() -> (r: i32)
    ensures
        r == 100,
{
    100
}

fn copy_text(s: &String) -> (r: String)
    ensures
        r@ == s@,
{
    s.clone()
}

impl ItemKnowledge {
    pub fn unknown() -> (k: ItemKnowledge)
        ensures
            !k.known && k.item is None,
    {
        ItemKnowledge { known: false, item: None }
    }

    /// `None` = unknown, `Some(None)` = known empty, `Some(Some(x))` = known x.
    pub fn from_obs(v: Option<Option<&str>>) -> (k: ItemKnowledge)
        ensures
            match v {
                None => !k.known && k.item is None,
                Some(None) => k.known && k.item is None,
                Some(Some(x)) => k.known && (k.item matches Some(i) && i@ == x@),
            },
    {
        match v {
            None => ItemKnowledge { known: false, item: None },
            Some(None) => ItemKnowledge { known: true, item: None },
            Some(Some(x)) => ItemKnowledge { known: true, item: Some(String::from_str(x)) },
        }
    }

    /// Inverse of `from_obs`.
    pub fn to_obs(&self) -> (r: Option<Option<&str>>)
        ensures
            !self.known ==> r is None,
            self.known ==> match self.item {
                None => r == Some(None::<&str>),
                Some(i) => r matches Some(Some(x)) && x@ == i@,
            },
    {
        if !self.known {
            None
        } else {
            match &self.item {
                None => Some(None),
                Some(i) => Some(Some(i.as_str())),
            }
        }
    }
}

impl SideSpec {
    /// The active mon, when the active slot is set and in range.
    pub fn active_mon(&self) -> (r: Option<&MonSpec>)
        ensures
            match self.active {
                Some(a) => if a < self.mons@.len() {
                    r == Some(&self.mons@[a as int])
                } else {
                    r is None
                },
                None => r is None,
            },
    {
        match self.active {
            Some(a) => if a < self.mons.len() {
                Some(&self.mons[a])
            } else {
                None
            },
            None => None,
        }
    }
}

/// Index of the first volatile with this key, or -1.
pub open spec fn volatile_index(vols: Seq<VolSpec>, key: Seq<char>) -> int
    decreases vols.len(),
{
    if vols.len() == 0 {
        -1
    } else {
        let p = volatile_index(vols.drop_last(), key);
        if p >= 0 {
            p
        } else if vols.last().key@ == key {
            vols.len() - 1
        } else {
            -1
        }
    }
}

/// The use count recorded for `key` (typed hidden powers folded), or 0.
pub open spec fn use_count(uses: Seq<UseSpec>, key: Seq<char>) -> int
    decreases uses.len(),
{
    if uses.len() == 0 {
        0
    } else if exists|j: int|
        0 <= j < uses.len() - 1 && plain_id(to_id((#[trigger] uses[j]).move_key@)) == plain_id(key) {
        use_count(uses.drop_last(), key)
    } else if plain_id(to_id(uses.last().move_key@)) == plain_id(key) {
        uses.last().n as int
    } else {
        0
    }
}

/// `"Species, L55, M"` with the key as typed.
pub open spec fn details_text(m: MonSpec) -> Seq<char> {
    m.species@ + ", L"@ + decimal(m.level as nat) + if m.gender@.len() == 0 {
        Seq::empty()
    } else {
        ", "@ + m.gender@
    }
}

pub open spec fn clamp(v: int, lo: int, hi: int) -> int {
    if v < lo {
        lo
    } else if v > hi {
        hi
    } else {
        v
    }
}

/// The analyzing side's current HP against `maxhp`: the exact value when
/// stated, else `scaled`, the announced fraction of `maxhp` as the caller
/// rounded it; clamped to `1..=maxhp`.
pub open spec fn own_hp_of(m: MonSpec, maxhp: int, scaled: int) -> int {
    match m.hp_exact {
        Some(hp) => clamp(hp as int, 1, maxhp),
        None => clamp(scaled, 1, maxhp),
    }
}

impl MonSpec {
    /// The first volatile with this key.
    pub fn volatile(&self, key: &str) -> (r: Option<&VolSpec>)
        ensures
            volatile_index(self.volatiles@, key@) < 0 ==> r is None,
            volatile_index(self.volatiles@, key@) >= 0 ==> r == Some(
                &self.volatiles@[volatile_index(self.volatiles@, key@)],
            ),
    {
        let n = self.volatiles.len();
        for i in 0..n
            invariant
                n == self.volatiles@.len(),
                volatile_index(self.volatiles@.take(i as int), key@) < 0,
        {
            proof {
                assert(self.volatiles@.take(i + 1).drop_last() =~= self.volatiles@.take(i as int));
            }
            if same_text(self.volatiles[i].key.as_str(), key) {
                proof {
                    lemma_volatile_index_prefix(self.volatiles@, key@, i + 1);
                }
                return Some(&self.volatiles[i]);
            }
        }
        proof {
            assert(self.volatiles@.take(n as int) =~= self.volatiles@);
        }
        None
    }

    /// Public use count of `key`, matching PS's plain-`hiddenpower` naming.
    pub fn uses_of(&self, key: &str) -> (r: i32)
        ensures
            r == use_count(self.uses@, key@),
    {
        let want = plain(key);
        let n = self.uses.len();
        for i in 0..n
            invariant
                n == self.uses@.len(),
                want@ == plain_id(key@),
                forall|j: int| 0 <= j < i ==> plain_id(to_id((#[trigger] self.uses@[j]).move_key@)) != plain_id(key@),
        {
            let id = toid(self.uses[i].move_key.as_str());
            let p = plain(id.as_str());
            if same_text(p, want) {
                proof {
                    lemma_use_count_first(self.uses@, key@, i as int);
                }
                return self.uses[i].n;
            }
        }
        proof {
            lemma_use_count_none(self.uses@, key@);
        }
        0
    }

    /// `"Species, L55, M"` — the protocol details string.
    pub fn details(&self) -> (s: String)
        ensures
            s@ == details_text(*self),
    {
        let mut s = copy_text(&self.species);
        s.append(", L");
        push_decimal(&mut s, self.level as u64);
        if self.gender.as_str().unicode_len() > 0 {
            s.append(", ");
            s.append(self.gender.as_str());
        }
        assert(s@ =~= details_text(*self));
        s
    }

    /// The analyzing side's exact current HP for the request's `condition`:
    /// the stated exact HP, else `scaled`, clamped to `1..=maxhp`. The share
    /// of `maxhp` that the announced `hp_num / hp_den` stands for is rounded
    /// in floating point (`(num / den * maxhp).round()`), so the caller
    /// computes it and passes it as `scaled`.
    pub fn own_hp(&self, maxhp: i32, scaled: i32) -> (r: i32)
        requires
            maxhp >= 1,
        ensures
            r == own_hp_of(*self, maxhp as int, scaled as int),
    {
        let v = match self.hp_exact {
            Some(hp) => hp,
            None => scaled,
        };
        if v < 1 {
            1
        } else if v > maxhp {
            maxhp
        } else {
            v
        }
    }
}

proof fn lemma_volatile_index_prefix(vols: Seq<VolSpec>, key: Seq<char>, k: int)
    requires
        0 < k <= vols.len(),
        volatile_index(vols.take(k - 1), key) < 0,
        vols[k - 1].key@ == key,
    ensures
        volatile_index(vols, key) == k - 1,
    decreases vols.len(),
{
    assert(vols.take(k).drop_last() =~= vols.take(k - 1));
    if k < vols.len() {
        assert(vols.drop_last().take(k) =~= vols.take(k));
        assert(vols.drop_last().take(k - 1) =~= vols.take(k - 1));
        lemma_volatile_index_prefix(vols.drop_last(), key, k);
    } else {
        assert(vols.take(k) =~= vols);
    }
}

proof fn lemma_use_count_first(uses: Seq<UseSpec>, key: Seq<char>, i: int)
    requires
        0 <= i < uses.len(),
        forall|j: int| 0 <= j < i ==> plain_id(to_id((#[trigger] uses[j]).move_key@)) != plain_id(key),
        plain_id(to_id(uses[i].move_key@)) == plain_id(key),
    ensures
        use_count(uses, key) == uses[i].n,
    decreases uses.len(),
{
    if i < uses.len() - 1 {
        assert(exists|j: int| 0 <= j < uses.len() - 1 && plain_id(to_id((#[trigger] uses[j]).move_key@)) == plain_id(key)) by {
            assert(plain_id(to_id(uses[i].move_key@)) == plain_id(key));
        }
        lemma_use_count_first(uses.drop_last(), key, i);
    } else {
        assert(!exists|j: int| 0 <= j < uses.len() - 1 && plain_id(to_id((#[trigger] uses[j]).move_key@)) == plain_id(key));
    }
}

proof fn lemma_use_count_none(uses: Seq<UseSpec>, key: Seq<char>)
    requires
        forall|j: int| 0 <= j < uses.len() ==> plain_id(to_id((#[trigger] uses[j]).move_key@)) != plain_id(key),
    ensures
        use_count(uses, key) == 0,
    decreases uses.len(),
{
    if uses.len() > 0 {
        assert(!exists|j: int| 0 <= j < uses.len() - 1 && plain_id(to_id((#[trigger] uses[j]).move_key@)) == plain_id(key)) by {
            assert forall|j: int| 0 <= j < uses.len() - 1 implies plain_id(to_id((#[trigger] uses[j]).move_key@)) != plain_id(key) by {
                assert(plain_id(to_id(uses[j].move_key@)) != plain_id(key));
            }
        }
    }
}

/// PS normalizes typed hidden powers to the plain id in requests and in
/// `|move|` lines, so any comparison against a set's move must fold them.
pub fn plain(key: &str) -> (r: &str)
    ensures
        r@ == plain_id(key@),
{
    if starts_with(key, "hiddenpower") {
        "hiddenpower"
    } else {
        key
    }
}


// ------------------------------------------------------------------ checks

/// What is wrong with one mon of a side.
#[derive(Debug)]
pub enum MonFault {
    HpDen,
    HpNum { num: i32, den: i32 },
    FaintedWithHp,
    ZeroHpAlive,
    FaintedUnseen,
    FaintedActive,
}

/// Why a position, or a derivation from it, was refused.
#[derive(Debug)]
pub enum PositionError {
    Schema { found: String },
    Side { side: usize },
    OwnSets { own: usize, side: usize, mons: usize },
    NoMons { side: usize },
    ActiveRange { side: usize, active: usize },
    ManyActives { side: usize, count: usize },
    ActiveMismatch { side: usize, active: usize, flagged: usize },
    ActiveFlags { side: usize },
    Mon { side: usize, index: usize, fault: MonFault },
    NoActive,
    PartySlot { slot: usize },
    NoPicks,
    NoSet { slot: usize },
    UnknownMove { name: String },
}

pub open spec fn mon_fault(p: PositionSpec, m: MonSpec) -> Option<MonFault> {
    if m.hp_den <= 0 {
        Some(MonFault::HpDen)
    } else if m.hp_num < 0 || m.hp_num > m.hp_den {
        Some(MonFault::HpNum { num: m.hp_num, den: m.hp_den })
    } else if m.fainted && m.hp_num != 0 {
        Some(MonFault::FaintedWithHp)
    } else if !m.fainted && m.hp_num == 0 {
        Some(MonFault::ZeroHpAlive)
    } else if m.fainted && !m.appeared {
        Some(MonFault::FaintedUnseen)
    } else if m.active && m.fainted && !p.force_switch && !p.team_preview {
        Some(MonFault::FaintedActive)
    } else {
        None
    }
}

/// Number of mons flagged active.
pub open spec fn active_count(mons: Seq<MonSpec>) -> nat
    decreases mons.len(),
{
    if mons.len() == 0 {
        0
    } else {
        active_count(mons.drop_last()) + if mons.last().active {
            1nat
        } else {
            0nat
        }
    }
}

/// Index of the first mon flagged active, or -1.
pub open spec fn first_flagged(mons: Seq<MonSpec>) -> int
    decreases mons.len(),
{
    if mons.len() == 0 {
        -1
    } else {
        let f = first_flagged(mons.drop_last());
        if f >= 0 {
            f
        } else if mons.last().active {
            mons.len() - 1
        } else {
            -1
        }
    }
}

/// The first faulty mon of a side, or -1.
pub open spec fn first_faulty(p: PositionSpec, mons: Seq<MonSpec>) -> int
    decreases mons.len(),
{
    if mons.len() == 0 {
        -1
    } else {
        let f = first_faulty(p, mons.drop_last());
        if f >= 0 {
            f
        } else if mon_fault(p, mons.last()) is Some {
            mons.len() - 1
        } else {
            -1
        }
    }
}

/// The first problem with side `s`, in check order.
pub open spec fn side_fault(p: PositionSpec, s: int) -> Option<PositionError> {
    let side = p.sides[s];
    let mons = side.mons@;
    let f = first_flagged(mons);
    if mons.len() == 0 {
        Some(PositionError::NoMons { side: s as usize })
    } else if side.active matches Some(a) && a >= mons.len() {
        Some(PositionError::ActiveRange { side: s as usize, active: side.active.unwrap() })
    } else if active_count(mons) > 1 {
        Some(PositionError::ManyActives { side: s as usize, count: active_count(mons) as usize })
    } else if side.active matches Some(a) && f >= 0 && a != f {
        Some(
            PositionError::ActiveMismatch {
                side: s as usize,
                active: side.active.unwrap(),
                flagged: f as usize,
            },
        )
    } else if (side.active is Some && f < 0) || (side.active is None && f >= 0) {
        Some(PositionError::ActiveFlags { side: s as usize })
    } else if first_faulty(p, mons) >= 0 {
        Some(
            PositionError::Mon {
                side: s as usize,
                index: first_faulty(p, mons) as usize,
                fault: mon_fault(p, mons[first_faulty(p, mons)]).unwrap(),
            },
        )
    } else {
        None
    }
}

/// The first structural problem of a position, in check order (`Schema`
/// stands for a schema mismatch whatever its text).
pub open spec fn position_fault(p: PositionSpec) -> Option<PositionError> {
    if p.schema@ != SCHEMA@ {
        Some(PositionError::Schema { found: p.schema })
    } else if p.side > 1 {
        Some(PositionError::Side { side: p.side })
    } else if p.own_sets@.len() != p.sides[p.side as int].mons@.len() {
        Some(
            PositionError::OwnSets {
                own: p.own_sets@.len() as usize,
                side: p.side,
                mons: p.sides[p.side as int].mons@.len() as usize,
            },
        )
    } else if side_fault(p, 0) is Some {
        side_fault(p, 0)
    } else if side_fault(p, 1) is Some {
        side_fault(p, 1)
    } else if p.sides[p.side as int].active is None && !p.force_switch && !p.team_preview {
        Some(PositionError::NoActive)
    } else {
        None
    }
}

/// `r` is the outcome `position_fault(p)` prescribes.
pub open spec fn check_outcome(p: PositionSpec, r: Result<(), PositionError>) -> bool {
    match position_fault(p) {
        None => r is Ok,
        Some(PositionError::Schema { .. }) => r matches Err(PositionError::Schema { found })
            && found@ == p.schema@,
        Some(e) => r == Err::<(), PositionError>(e),
    }
}

fn check_mon(p: &PositionSpec, m: &MonSpec) -> (r: Option<MonFault>)
    ensures
        r == mon_fault(*p, *m),
{
    if m.hp_den <= 0 {
        Some(MonFault::HpDen)
    } else if m.hp_num < 0 || m.hp_num > m.hp_den {
        Some(MonFault::HpNum { num: m.hp_num, den: m.hp_den })
    } else if m.fainted && m.hp_num != 0 {
        Some(MonFault::FaintedWithHp)
    } else if !m.fainted && m.hp_num == 0 {
        Some(MonFault::ZeroHpAlive)
    } else if m.fainted && !m.appeared {
        Some(MonFault::FaintedUnseen)
    } else if m.active && m.fainted && !p.force_switch && !p.team_preview {
        Some(MonFault::FaintedActive)
    } else {
        None
    }
}

#[verifier::loop_isolation(false)]
fn check_side(p: &PositionSpec, s: usize) -> (r: Option<PositionError>)
    requires
        s < 2,
    ensures
        r == side_fault(*p, s as int),
{
    let side = &p.sides[s];
    let mons = &side.mons;
    let n = mons.len();
    if n == 0 {
        return Some(PositionError::NoMons { side: s });
    }
    if let Some(a) = side.active {
        if a >= n {
            return Some(PositionError::ActiveRange { side: s, active: a });
        }
    }
    let mut count: usize = 0;
    let mut flagged: Option<usize> = None;
    for i in 0..n
        invariant
            n == mons@.len(),
            count == active_count(mons@.take(i as int)),
            count <= i,
            match flagged {
                Some(f) => f == first_flagged(mons@.take(i as int)) && f >= 0,
                None => first_flagged(mons@.take(i as int)) < 0,
            },
    {
        proof {
            assert(mons@.take(i + 1).drop_last() =~= mons@.take(i as int));
        }
        if mons[i].active {
            count = count + 1;
            if flagged.is_none() {
                flagged = Some(i);
            }
        }
    }
    proof {
        assert(mons@.take(n as int) =~= mons@);
    }
    if count > 1 {
        return Some(PositionError::ManyActives { side: s, count });
    }
    match (side.active, flagged) {
        (Some(a), Some(b)) => if a != b {
            return Some(PositionError::ActiveMismatch { side: s, active: a, flagged: b });
        },
        (Some(_), None) => {
            return Some(PositionError::ActiveFlags { side: s });
        },
        (None, Some(_)) => {
            return Some(PositionError::ActiveFlags { side: s });
        },
        (None, None) => {},
    }
    for i in 0..n
        invariant
            n == mons@.len(),
            first_faulty(*p, mons@.take(i as int)) < 0,
    {
        proof {
            assert(mons@.take(i + 1).drop_last() =~= mons@.take(i as int));
        }
        if let Some(fault) = check_mon(p, &mons[i]) {
            proof {
                lemma_first_faulty_prefix(*p, mons@, i as int);
            }
            return Some(PositionError::Mon { side: s, index: i, fault });
        }
    }
    proof {
        assert(mons@.take(n as int) =~= mons@);
    }
    None
}

proof fn lemma_first_faulty_prefix(p: PositionSpec, mons: Seq<MonSpec>, i: int)
    requires
        0 <= i < mons.len(),
        first_faulty(p, mons.take(i)) < 0,
        mon_fault(p, mons[i]) is Some,
    ensures
        first_faulty(p, mons) == i,
    decreases mons.len(),
{
    assert(mons.take(i + 1).drop_last() =~= mons.take(i));
    if i + 1 < mons.len() {
        assert(mons.drop_last().take(i) =~= mons.take(i));
        lemma_first_faulty_prefix(p, mons.drop_last(), i);
    } else {
        assert(mons.take(i + 1) =~= mons);
    }
}

/// Indices `i` whose mon has (`want_appeared`) or has not appeared, other
/// than `active`, in roster order.
pub open spec fn slots_where(mons: Seq<MonSpec>, active: Option<usize>, want_appeared: bool) -> Seq<usize>
    decreases mons.len(),
{
    if mons.len() == 0 {
        Seq::empty()
    } else {
        let i = (mons.len() - 1) as usize;
        let p = slots_where(mons.drop_last(), active, want_appeared);
        if mons.last().appeared == want_appeared && active != Some(i) {
            p.push(i)
        } else {
            p
        }
    }
}

/// The derived party: the active first, then the mons that have
/// appeared, then never-appeared mons up to three picks; at most three.
pub open spec fn derived_party(side: SideSpec) -> Seq<usize> {
    let lead: Seq<usize> = match side.active {
        Some(a) => seq![a],
        None => Seq::empty(),
    };
    let seen = lead + slots_where(side.mons@, side.active, true);
    let room = if seen.len() >= PICKS { 0 } else { PICKS - seen.len() };
    let fresh = slots_where(side.mons@, side.active, false);
    let filled = seen + fresh.take(if fresh.len() < room { fresh.len() as int } else { room as int });
    filled.take(if filled.len() < PICKS { filled.len() as int } else { PICKS as int })
}

/// What `own_party` returns.
pub open spec fn own_party_outcome(p: PositionSpec, r: Result<Vec<usize>, PositionError>) -> bool {
    let me = p.sides[p.side as int];
    let n = me.mons@.len();
    if p.team_preview {
        r matches Ok(v) && v@ == Seq::new(n, |i: int| i as usize)
    } else if me.party@.len() > 0 {
        if exists|k: int| 0 <= k < me.party@.len() && me.party@[k] >= n {
            exists|k: int|
                #![trigger me.party@[k]]
                0 <= k < me.party@.len() && me.party@[k] >= n && (forall|j: int|
                    0 <= j < k ==> me.party@[j] < n) && r == Err::<Vec<usize>, PositionError>(
                    PositionError::PartySlot { slot: me.party@[k] },
                )
        } else {
            r matches Ok(v) && v@ == me.party@
        }
    } else if derived_party(me).len() == 0 {
        r == Err::<Vec<usize>, PositionError>(PositionError::NoPicks)
    } else {
        r matches Ok(v) && v@ == derived_party(me)
    }
}


/// The stated party, refused at its first out-of-range slot.
fn stated_party(me: &SideSpec) -> (r: Result<Vec<usize>, PositionError>)
    ensures
        if exists|k: int| 0 <= k < me.party@.len() && me.party@[k] >= me.mons@.len() {
            exists|k: int|
                #![trigger me.party@[k]]
                0 <= k < me.party@.len() && me.party@[k] >= me.mons@.len() && (forall|j: int|
                    0 <= j < k ==> me.party@[j] < me.mons@.len()) && r == Err::<Vec<usize>, PositionError>(
                    PositionError::PartySlot { slot: me.party@[k] },
                )
        } else {
            r matches Ok(v) && v@ == me.party@
        },
{
    let n = me.mons.len();
    let m = me.party.len();
    let mut copy: Vec<usize> = Vec::new();
    for k in 0..m
        invariant
            m == me.party@.len(),
            n == me.mons@.len(),
            copy@ == me.party@.take(k as int),
            forall|j: int| 0 <= j < k ==> me.party@[j] < n,
    {
        let slot = me.party[k];
        if slot >= n {
            assert(0 <= k < me.party@.len() && me.party@[k as int] >= n && (forall|j: int|
                0 <= j < k ==> me.party@[j] < n));
            return Err(PositionError::PartySlot { slot });
        }
        copy.push(slot);
        assert(copy@ =~= me.party@.take(k + 1));
    }
    assert(copy@ =~= me.party@);
    Ok(copy)
}

impl PositionSpec {
    /// Structural checks that must hold before any of this reaches the
    /// engine: schema, side index, own sets aligned with the own roster,
    /// per side a non-empty roster whose active slot and active flags agree,
    /// per mon a consistent announced HP / faint / appearance state, and an
    /// active mon or a switch/preview request on the analyzing side.
    pub fn check(&self) -> (r: Result<(), PositionError>)
        ensures
            check_outcome(*self, r),
    {
        if !same_text(self.schema.as_str(), SCHEMA) {
            return Err(PositionError::Schema { found: copy_text(&self.schema) });
        }
        if self.side > 1 {
            return Err(PositionError::Side { side: self.side });
        }
        let own = self.own_sets.len();
        let mons = self.sides[self.side].mons.len();
        if own != mons {
            return Err(PositionError::OwnSets { own, side: self.side, mons });
        }
        if let Some(e) = check_side(self, 0) {
            return Err(e);
        }
        if let Some(e) = check_side(self, 1) {
            return Err(e);
        }
        if self.sides[self.side].active.is_none() && !self.force_switch && !self.team_preview {
            return Err(PositionError::NoActive);
        }
        Ok(())
    }

    /// The opponent's side index.
    pub fn foe(&self) -> (r: usize)
        requires
            self.side <= 1,
        ensures
            r == 1 - self.side,
    {
        1 - self.side
    }

    /// The analyzing side's picked party in display order: the whole roster
    /// at team preview, else the stated party (every slot in range), else
    /// derived — active first, then the mons that have appeared, then
    /// never-appeared picks, three at most.
    pub fn own_party(&self) -> (r: Result<Vec<usize>, PositionError>)
        requires
            self.side <= 1,
        ensures
            own_party_outcome(*self, r),
            self.team_preview ==> (r matches Ok(v) && v@.len() == self.sides[self.side as int].mons@.len()
                && forall|i: int| 0 <= i < v@.len() ==> v@[i] == i),
    {
        let me = &self.sides[self.side];
        let n = me.mons.len();
        if self.team_preview {
            let mut all: Vec<usize> = Vec::new();
            for i in 0..n
                invariant
                    all@ == Seq::new(i as nat, |j: int| j as usize),
            {
                all.push(i);
                assert(all@ =~= Seq::new((i + 1) as nat, |j: int| j as usize));
            }
            return Ok(all);
        }
        if me.party.len() > 0 {
            return stated_party(me);
        }
        let mut out: Vec<usize> = Vec::new();
        if let Some(a) = me.active {
            out.push(a);
        }
        let ghost lead = out@;
        for i in 0..n
            invariant
                n == me.mons@.len(),
                out@ == lead + slots_where(me.mons@.take(i as int), me.active, true),
        {
            proof {
                assert(me.mons@.take(i + 1).drop_last() =~= me.mons@.take(i as int));
            }
            if me.mons[i].appeared && me.active != Some(i) {
                out.push(i);
                proof {
                    assert(out@ =~= lead + slots_where(me.mons@.take(i + 1), me.active, true));
                }
            }
        }
        proof {
            assert(me.mons@.take(n as int) =~= me.mons@);
        }
        let ghost seen = out@;
        let ghost fresh = slots_where(me.mons@, me.active, false);
        let ghost room: int = if seen.len() >= PICKS { 0 } else { PICKS - seen.len() };
        for i in 0..n
            invariant
                n == me.mons@.len(),
                fresh == slots_where(me.mons@, me.active, false),
                room == (if seen.len() >= PICKS { 0 } else { PICKS - seen.len() }),
                out@ == seen + {
                    let f = slots_where(me.mons@.take(i as int), me.active, false);
                    f.take(if f.len() < room { f.len() as int } else { room })
                },
        {
            proof {
                assert(me.mons@.take(i + 1).drop_last() =~= me.mons@.take(i as int));
            }
            let ghost f0 = slots_where(me.mons@.take(i as int), me.active, false);
            if out.len() >= PICKS {
                // no room left: nothing more is taken
            } else if !me.mons[i].appeared && me.active != Some(i) {
                out.push(i);
            }
            proof {
                let f1 = slots_where(me.mons@.take(i + 1), me.active, false);
                assert(f1.take(if f1.len() < room { f1.len() as int } else { room }) =~= {
                    let f = slots_where(me.mons@.take(i + 1), me.active, false);
                    f.take(if f.len() < room { f.len() as int } else { room })
                });
                if !me.mons@[i as int].appeared && me.active != Some(i) {
                    assert(f1 =~= f0.push(i));
                } else {
                    assert(f1 =~= f0);
                }
                assert(out@ =~= seen + f1.take(if f1.len() < room { f1.len() as int } else { room }));
            }
        }
        proof {
            assert(me.mons@.take(n as int) =~= me.mons@);
        }
        proof {
            let lead_spec: Seq<usize> = match me.active {
                Some(a) => seq![a],
                None => Seq::empty(),
            };
            assert(lead =~= lead_spec);
            let filled = seen + fresh.take(if fresh.len() < room { fresh.len() as int } else { room });
            assert(out@ =~= filled);
        }
        if out.len() == 0 {
            return Err(PositionError::NoPicks);
        }
        out.truncate(PICKS);
        proof {
            assert(out@ =~= derived_party(*me));
        }
        Ok(out)
    }
}


// ------------------------------------------------------------- move rows

/// A move's static data as the dex holds it.
#[derive(Debug)]
pub struct MoveData {
    /// Id key (`"thunderbolt"`).
    pub key: String,
    /// Display name (`"Thunderbolt"`).
    pub name: String,
    /// Base PP.
    pub pp: i32,
    pub no_pp_boosts: bool,
}

/// The dex's move table: a move's id is its index.
#[derive(Debug)]
pub struct MoveBook {
    pub moves: Vec<MoveData>,
}

/// PP values small enough that the PP-Up arithmetic cannot overflow.
pub open spec fn book_wf(book: MoveBook) -> bool {
    forall|i: int| 0 <= i < book.moves@.len() ==> -0x0fff_ffff <= #[trigger] book.moves@[i].pp <= 0x0fff_ffff
}

/// Index of the first move with this key, or -1.
pub open spec fn book_index(moves: Seq<MoveData>, key: Seq<char>) -> int
    decreases moves.len(),
{
    if moves.len() == 0 {
        -1
    } else {
        let p = book_index(moves.drop_last(), key);
        if p >= 0 {
            p
        } else if moves.last().key@ == key {
            moves.len() - 1
        } else {
            -1
        }
    }
}

/// Integer division truncating toward zero.
pub open spec fn trunc_div(x: int, d: int) -> int {
    if x >= 0 {
        x / d
    } else {
        -((-x) / d)
    }
}

/// Max PP under this format's fixed 3 PP Ups: `pp * (5 + ups) / 5`, and
/// base-40 moves lose the ups again.
pub open spec fn max_pp_of(d: MoveData) -> int {
    let ups: int = if d.no_pp_boosts { 0 } else { 3 };
    trunc_div(d.pp * (5 + ups), 5) - if d.pp == 40 { ups } else { 0 }
}

impl MoveBook {
    /// The id of the move with this key.
    pub fn id(&self, key: &str) -> (r: Option<usize>)
        ensures
            book_index(self.moves@, key@) < 0 ==> r is None,
            book_index(self.moves@, key@) >= 0 ==> (r matches Some(i) && i as int == book_index(
                self.moves@,
                key@,
            )),
    {
        let n = self.moves.len();
        for i in 0..n
            invariant
                n == self.moves@.len(),
                book_index(self.moves@.take(i as int), key@) < 0,
        {
            proof {
                assert(self.moves@.take(i + 1).drop_last() =~= self.moves@.take(i as int));
            }
            if same_text(self.moves[i].key.as_str(), key) {
                proof {
                    lemma_book_index_prefix(self.moves@, key@, i + 1);
                }
                return Some(i);
            }
        }
        proof {
            assert(self.moves@.take(n as int) =~= self.moves@);
        }
        None
    }
}

proof fn lemma_book_index_prefix(moves: Seq<MoveData>, key: Seq<char>, k: int)
    requires
        0 < k <= moves.len(),
        book_index(moves.take(k - 1), key) < 0,
        moves[k - 1].key@ == key,
    ensures
        book_index(moves, key) == k - 1,
    decreases moves.len(),
{
    assert(moves.take(k).drop_last() =~= moves.take(k - 1));
    if k < moves.len() {
        assert(moves.drop_last().take(k) =~= moves.take(k));
        assert(moves.drop_last().take(k - 1) =~= moves.take(k - 1));
        lemma_book_index_prefix(moves.drop_last(), key, k);
    } else {
        assert(moves.take(k) =~= moves);
    }
}

proof fn lemma_book_index_range(moves: Seq<MoveData>, key: Seq<char>)
    ensures
        -1 <= book_index(moves, key) < moves.len(),
        book_index(moves, key) >= 0 ==> moves[book_index(moves, key)].key@ == key,
    decreases moves.len(),
{
    if moves.len() > 0 {
        lemma_book_index_range(moves.drop_last(), key);
    }
}

/// Max PP of move `id` under this format's fixed 3 PP Ups.
pub fn max_pp(book: &MoveBook, id: usize) -> (r: i32)
    requires
        id < book.moves@.len(),
        book_wf(*book),
    ensures
        r == max_pp_of(book.moves@[id as int]),
        -0x1a00_0000 <= r <= 0x1a00_0000,
{
    let ms = &book.moves[id];
    assert(-0x0fff_ffff <= book.moves@[id as int].pp <= 0x0fff_ffff);
    let pp_ups: i32 = if ms.no_pp_boosts { 0 } else { 3 };
    let scaled = if ms.no_pp_boosts { ms.pp * 5 } else { ms.pp * 8 };
    let mut maxpp = scaled / 5;
    if ms.pp == 40 {
        maxpp = maxpp - pp_ups;
    }
    maxpp
}

/// The locked move named by the mon's first `key` volatile, if any.
pub open spec fn volatile_move(m: MonSpec, key: Seq<char>) -> Option<String> {
    let i = volatile_index(m.volatiles@, key);
    if i >= 0 {
        m.volatiles@[i].move_key
    } else {
        None
    }
}

/// Encore leaves only its move usable; otherwise Disable blocks its move.
pub open spec fn row_disabled(m: MonSpec, key: Seq<char>) -> bool {
    match volatile_move(m, "encore"@) {
        Some(em) => plain_id(to_id(em@)) != plain_id(key),
        None => match volatile_move(m, "disable"@) {
            Some(dm) => plain_id(to_id(dm@)) == plain_id(key),
            None => false,
        },
    }
}

pub open spec fn same_pp_row(a: PpSpec, b: PpSpec) -> bool {
    a.move_key@ == b.move_key@ && a.pp == b.pp && a.maxpp == b.maxpp && a.disabled == b.disabled
}

/// Row `k` for the set's move `name`: full PP under the PP Ups minus the
/// public uses (not below 0), with Encore/Disable folded into `disabled`.
pub open spec fn derived_row(book: MoveBook, m: MonSpec, name: String, row: PpSpec) -> bool {
    let key = to_id(name@);
    let maxpp = max_pp_of(book.moves@[book_index(book.moves@, key)]);
    let left = maxpp - use_count(m.uses@, key);
    &&& row.move_key@ == name@
    &&& row.maxpp == maxpp
    &&& row.pp == if left > 0 { left } else { 0 }
    &&& row.disabled == row_disabled(m, key)
}

/// The set's move `name` gets its PP as `maxpp - uses` in `i32` without
/// overflow.
pub open spec fn row_fits(book: MoveBook, m: MonSpec, name: String) -> bool {
    let key = to_id(name@);
    let left = max_pp_of(book.moves@[book_index(book.moves@, key)]) - use_count(m.uses@, key);
    i32::MIN <= left <= i32::MAX
}

/// Every PP row `own_move_rows` computes for roster slot `slot` (those of
/// the set's moves up to the first one the book does not know) fits in
/// `i32`.
pub open spec fn rows_fit(p: PositionSpec, book: MoveBook, slot: int) -> bool {
    slot < p.own_sets@.len() ==> forall|k: int|
        0 <= k < p.own_sets@[slot].moves@.len() && (forall|j: int|
            0 <= j <= k ==> book_index(book.moves@, to_id(#[trigger] p.own_sets@[slot].moves@[j]@)) >= 0)
            ==> row_fits(book, p.sides[p.side as int].mons@[slot], #[trigger] p.own_sets@[slot].moves@[k])
}

/// What `own_move_rows` returns for roster slot `slot`.
pub open spec fn move_rows_outcome(p: PositionSpec, book: MoveBook, slot: int, r: Result<Vec<PpSpec>, PositionError>) -> bool {
    let m = p.sides[p.side as int].mons@[slot];
    if m.pp@.len() > 0 {
        r matches Ok(v) && v@.len() == m.pp@.len() && forall|k: int|
            0 <= k < v@.len() ==> same_pp_row(#[trigger] v@[k], m.pp@[k])
    } else if slot >= p.own_sets@.len() {
        r == Err::<Vec<PpSpec>, PositionError>(PositionError::NoSet { slot: slot as usize })
    } else {
        let moves = p.own_sets@[slot].moves@;
        if exists|k: int| 0 <= k < moves.len() && book_index(book.moves@, to_id(moves[k]@)) < 0 {
            exists|k: int|
                #![trigger moves[k]]
                0 <= k < moves.len() && book_index(book.moves@, to_id(moves[k]@)) < 0 && (forall|
                    j: int,
                | 0 <= j < k ==> book_index(book.moves@, to_id(moves[j]@)) >= 0) && (r matches Err(
                    PositionError::UnknownMove { name },
                ) && name@ == moves[k]@)
        } else {
            r matches Ok(v) && v@.len() == moves.len() && forall|k: int|
                0 <= k < v@.len() ==> derived_row(book, m, moves[k], #[trigger] v@[k])
        }
    }
}

fn copy_pp_rows(rows: &Vec<PpSpec>) -> (r: Vec<PpSpec>)
    ensures
        r@.len() == rows@.len(),
        forall|k: int| 0 <= k < r@.len() ==> same_pp_row(#[trigger] r@[k], rows@[k]),
{
    let mut out: Vec<PpSpec> = Vec::new();
    let n = rows.len();
    for i in 0..n
        invariant
            n == rows@.len(),
            out@.len() == i,
            forall|k: int| 0 <= k < i ==> same_pp_row(#[trigger] out@[k], rows@[k]),
    {
        let r = &rows[i];
        out.push(
            PpSpec {
                move_key: copy_text(&r.move_key),
                pp: r.pp,
                maxpp: r.maxpp,
                disabled: r.disabled,
            },
        );
    }
    out
}

fn volatile_move_key(m: &MonSpec, key: &str) -> (r: Option<String>)
    ensures
        match volatile_move(*m, key@) {
            Some(k) => r matches Some(x) && x@ == k@,
            None => r is None,
        },
{
    match m.volatile(key) {
        Some(v) => match &v.move_key {
            Some(k) => Some(copy_text(k)),
            None => None,
        },
        None => None,
    }
}

impl PositionSpec {
    /// The analyzing side's active move rows: whatever the position states,
    /// else the set's moves at full PP minus their public use counts, with
    /// Encore/Disable folded into `disabled`.
    pub fn own_move_rows(&self, book: &MoveBook, slot: usize) -> (r: Result<Vec<PpSpec>, PositionError>)
        requires
            self.side <= 1,
            slot < self.sides[self.side as int].mons@.len(),
            book_wf(*book),
            rows_fit(*self, *book, slot as int),
        ensures
            move_rows_outcome(*self, *book, slot as int, r),
    {
        let mon = &self.sides[self.side].mons[slot];
        if mon.pp.len() > 0 {
            return Ok(copy_pp_rows(&mon.pp));
        }
        if slot >= self.own_sets.len() {
            return Err(PositionError::NoSet { slot });
        }
        let set = &self.own_sets[slot];
        let encore = volatile_move_key(mon, "encore");
        let disable = volatile_move_key(mon, "disable");
        let mut out: Vec<PpSpec> = Vec::new();
        let n = set.moves.len();
        for i in 0..n
            invariant
                n == set.moves@.len(),
                self.side <= 1,
                mon.pp@.len() == 0,
                slot < self.own_sets@.len(),
                *set == self.own_sets@[slot as int],
                *mon == self.sides[self.side as int].mons@[slot as int],
                book_wf(*book),
                rows_fit(*self, *book, slot as int),
                match volatile_move(*mon, "encore"@) {
                    Some(k) => encore matches Some(x) && x@ == k@,
                    None => encore is None,
                },
                match volatile_move(*mon, "disable"@) {
                    Some(k) => disable matches Some(x) && x@ == k@,
                    None => disable is None,
                },
                out@.len() == i,
                forall|k: int| 0 <= k < i ==> book_index(book.moves@, to_id(set.moves@[k]@)) >= 0,
                forall|k: int| 0 <= k < i ==> derived_row(*book, *mon, set.moves@[k], #[trigger] out@[k]),
        {
            let name = &set.moves[i];
            let key = toid(name.as_str());
            let ks = key.as_str();
            let id = match book.id(ks) {
                Some(id) => id,
                None => {
                    let ghost moves = self.own_sets@[slot as int].moves@;
                    assert(0 <= i < moves.len() && book_index(book.moves@, to_id(moves[i as int]@)) < 0
                        && (forall|j: int| 0 <= j < i ==> book_index(book.moves@, to_id(moves[j]@)) >= 0));
                    return Err(PositionError::UnknownMove { name: copy_text(name) });
                },
            };
            proof {
                lemma_book_index_range(book.moves@, key@);
            }
            let maxpp = max_pp(book, id);
            let pk = plain(key.as_str());
            let disabled = match &encore {
                Some(em) => {
                    let e = toid(em.as_str());
                    !same_text(plain(e.as_str()), pk)
                },
                None => match &disable {
                    Some(dm) => {
                        let d = toid(dm.as_str());
                        same_text(plain(d.as_str()), pk)
                    },
                    None => false,
                },
            };
            let used = mon.uses_of(key.as_str());
            assert(forall|j: int| 0 <= j <= i ==> book_index(book.moves@, to_id(set.moves@[j]@)) >= 0);
            assert(row_fits(*book, *mon, set.moves@[i as int]));
            let left: i64 = maxpp as i64 - used as i64;
            let pp: i32 = if left > 0 { left as i32 } else { 0 };
            assert(key@ == to_id(name@));
            assert(book_index(book.moves@, key@) >= 0);
            assert(book_index(book.moves@, key@) < book.moves@.len());
            assert(ks@ == key@);
            assert(book_index(book.moves@, to_id(name@)) == id as int);
            assert(maxpp == max_pp_of(book.moves@[book_index(book.moves@, to_id(name@))]));
            assert(used == use_count(mon.uses@, to_id(name@)));
            assert(pp == if maxpp - used > 0 { maxpp - used } else { 0 });
            assert(disabled == row_disabled(*mon, to_id(name@)));
            out.push(PpSpec { move_key: copy_text(name), pp, maxpp, disabled });
        }
        Ok(out)
    }
}



// ---------------------------------------------------------------- defaults

impl Default for MonSpec {
    /// A level-50, full-HP, never-seen mon with nothing announced.
    fn default() -> (m: MonSpec)
        ensures
            m.species@.len() == 0 && m.gender@.len() == 0 && m.name@.len() == 0,
            m.level == 50,
            !m.item_flag && !m.appeared && !m.active && !m.fainted,
            m.appear_count == 0 && m.switch_in_turn == 0,
            m.hp_num == 100 && m.hp_den == 100 && m.hp_exact is None,
            m.status@.len() == 0 && !m.rest && m.slept == 0 && m.tox_counter is None,
            !m.comp_brn && !m.comp_par,
            forall|i: int| 0 <= i < 7 ==> m.boosts[i] == 0,
            m.volatiles@.len() == 0 && m.uses@.len() == 0 && m.pp@.len() == 0,
            m.item_now is None && m.locked is None && m.charging is None,
            !m.must_recharge && m.transformed_into is None && m.mimic_overlay is None,
            m.last_move is None && m.stall_streak == 0 && m.last_protect_turn == 0,
            !m.protected_this_turn && m.revealed_moves@.len() == 0,
            !m.item_original.known && m.item_original.item is None,
            !m.item_current.known && m.item_current.item is None,
            !m.item_gained,
    {
        MonSpec {
            species: String::new(),
            level: 50,
            gender: String::new(),
            name: String::new(),
            item_flag: false,
            appeared: false,
            appear_count: 0,
            switch_in_turn: 0,
            active: false,
            fainted: false,
            hp_num: 100,
            hp_den: 100,
            hp_exact: None,
            status: String::new(),
            rest: false,
            slept: 0,
            tox_counter: None,
            comp_brn: false,
            comp_par: false,
            boosts: [0; 7],
            volatiles: Vec::new(),
            uses: Vec::new(),
            pp: Vec::new(),
            item_now: None,
            locked: None,
            charging: None,
            must_recharge: false,
            transformed_into: None,
            mimic_overlay: None,
            last_move: None,
            stall_streak: 0,
            last_protect_turn: 0,
            protected_this_turn: false,
            revealed_moves: Vec::new(),
            item_original: ItemKnowledge::unknown(),
            item_current: ItemKnowledge::unknown(),
            item_gained: false,
        }
    }
}

// ---------------------------------------------------------------- messages

/// Decimal of a signed integer (`-` then the magnitude).
pub open spec fn signed_decimal(v: int) -> Seq<char> {
    if v < 0 {
        seq!['-'] + decimal((-v) as nat)
    } else {
        decimal(v as nat)
    }
}

pub open spec fn side_prefix(side: usize) -> Seq<char> {
    "sides["@ + decimal(side as nat) + "]"@
}

pub open spec fn mon_prefix(side: usize, index: usize) -> Seq<char> {
    side_prefix(side) + ".mons["@ + decimal(index as nat) + "]"@
}

/// The human-readable report of a position error.
pub open spec fn position_error_text(e: PositionError) -> Seq<char> {
    match e {
        PositionError::Schema { found } => "schema: expected "@ + SCHEMA@ + ", got "@ + found@,
        PositionError::Side { side } => "side: "@ + decimal(side as nat) + " (must be 0 or 1)"@,
        PositionError::OwnSets { own, side, mons } => "own_sets ("@ + decimal(own as nat)
            + ") must align with "@ + side_prefix(side) + ".mons ("@ + decimal(mons as nat) + ")"@,
        PositionError::NoMons { side } => side_prefix(side) + ".mons is empty"@,
        PositionError::ActiveRange { side, active } => side_prefix(side) + ".active "@ + decimal(
            active as nat,
        ) + " out of range"@,
        PositionError::ManyActives { side, count } => side_prefix(side) + " has "@ + decimal(
            count as nat,
        ) + " active mons"@,
        PositionError::ActiveMismatch { side, active, flagged } => side_prefix(side) + ".active "@
            + decimal(active as nat) + " disagrees with mons["@ + decimal(flagged as nat)
            + "].active"@,
        PositionError::ActiveFlags { side } => side_prefix(side)
            + ".active disagrees with the mons' flags"@,
        PositionError::Mon { side, index, fault } => match fault {
            MonFault::HpDen => mon_prefix(side, index) + ".hp_den must be positive"@,
            MonFault::HpNum { num, den } => mon_prefix(side, index) + ".hp_num "@ + signed_decimal(
                num as int,
            ) + " out of 0..="@ + signed_decimal(den as int),
            MonFault::FaintedWithHp => mon_prefix(side, index) + " is fainted with HP left"@,
            MonFault::ZeroHpAlive => mon_prefix(side, index) + " is at 0 HP but not fainted"@,
            MonFault::FaintedUnseen => mon_prefix(side, index)
                + " has fainted without ever appearing"@,
            MonFault::FaintedActive => mon_prefix(side, index)
                + " is the fainted active outside a switch request"@,
        },
        PositionError::NoActive => "the analyzing side has no active mon and no switch request"@,
        PositionError::PartySlot { slot } => "party slot "@ + decimal(slot as nat)
            + " out of range"@,
        PositionError::NoPicks => "the analyzing side has no picked mons"@,
        PositionError::NoSet { slot } => "no set for own roster slot "@ + decimal(slot as nat),
        PositionError::UnknownMove { name } => "unknown move `"@ + name@ + "`"@,
    }
}

fn push_signed(s: &mut String, v: i32)
    ensures
        final(s)@ == old(s)@ + signed_decimal(v as int),
{
    if v < 0 {
        push_char(s, '-');
        let mag: u64 = (-(v as i64)) as u64;
        push_decimal(s, mag);
        assert(final(s)@ =~= old(s)@ + signed_decimal(v as int));
    } else {
        push_decimal(s, v as u64);
    }
}

fn push_side(s: &mut String, side: usize)
    ensures
        final(s)@ == old(s)@ + side_prefix(side),
{
    s.append("sides[");
    push_decimal(s, side as u64);
    s.append("]");
    assert(final(s)@ =~= old(s)@ + side_prefix(side));
}

fn push_mon(s: &mut String, side: usize, index: usize)
    ensures
        final(s)@ == old(s)@ + mon_prefix(side, index),
{
    push_side(s, side);
    s.append(".mons[");
    push_decimal(s, index as u64);
    s.append("]");
    assert(final(s)@ =~= old(s)@ + mon_prefix(side, index));
}

impl PositionError {
    /// The error as a sentence, in the wording the solver screen shows.
    pub fn message(&self) -> (m: String)
        ensures
            m@ == position_error_text(*self),
    {
        let mut s = String::new();
        match self {
            PositionError::Schema { found } => {
                s.append("schema: expected ");
                s.append(SCHEMA);
                s.append(", got ");
                s.append(found.as_str());
            },
            PositionError::Side { side } => {
                s.append("side: ");
                push_decimal(&mut s, *side as u64);
                s.append(" (must be 0 or 1)");
            },
            PositionError::OwnSets { own, side, mons } => {
                s.append("own_sets (");
                push_decimal(&mut s, *own as u64);
                s.append(") must align with ");
                push_side(&mut s, *side);
                s.append(".mons (");
                push_decimal(&mut s, *mons as u64);
                s.append(")");
            },
            PositionError::NoMons { side } => {
                push_side(&mut s, *side);
                s.append(".mons is empty");
            },
            PositionError::ActiveRange { side, active } => {
                push_side(&mut s, *side);
                s.append(".active ");
                push_decimal(&mut s, *active as u64);
                s.append(" out of range");
            },
            PositionError::ManyActives { side, count } => {
                push_side(&mut s, *side);
                s.append(" has ");
                push_decimal(&mut s, *count as u64);
                s.append(" active mons");
            },
            PositionError::ActiveMismatch { side, active, flagged } => {
                push_side(&mut s, *side);
                s.append(".active ");
                push_decimal(&mut s, *active as u64);
                s.append(" disagrees with mons[");
                push_decimal(&mut s, *flagged as u64);
                s.append("].active");
            },
            PositionError::ActiveFlags { side } => {
                push_side(&mut s, *side);
                s.append(".active disagrees with the mons' flags");
            },
            PositionError::Mon { side, index, fault } => {
                push_mon(&mut s, *side, *index);
                match fault {
                    MonFault::HpDen => s.append(".hp_den must be positive"),
                    MonFault::HpNum { num, den } => {
                        s.append(".hp_num ");
                        push_signed(&mut s, *num);
                        s.append(" out of 0..=");
                        push_signed(&mut s, *den);
                    },
                    MonFault::FaintedWithHp => s.append(" is fainted with HP left"),
                    MonFault::ZeroHpAlive => s.append(" is at 0 HP but not fainted"),
                    MonFault::FaintedUnseen => s.append(" has fainted without ever appearing"),
                    MonFault::FaintedActive => s.append(
                        " is the fainted active outside a switch request",
                    ),
                }
            },
            PositionError::NoActive => {
                s.append("the analyzing side has no active mon and no switch request");
            },
            PositionError::PartySlot { slot } => {
                s.append("party slot ");
                push_decimal(&mut s, *slot as u64);
                s.append(" out of range");
            },
            PositionError::NoPicks => {
                s.append("the analyzing side has no picked mons");
            },
            PositionError::NoSet { slot } => {
                s.append("no set for own roster slot ");
                push_decimal(&mut s, *slot as u64);
            },
            PositionError::UnknownMove { name } => {
                s.append("unknown move `");
                s.append(name.as_str());
                s.append("`");
            },
        }
        assert(s@ =~= position_error_text(*self));
        s
    }
}

} // verus!
