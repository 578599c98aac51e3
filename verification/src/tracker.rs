//! The protocol tracker: the public state of a battle, accumulated from
//! the player-visible protocol lines — per mon HP (own exact, foe as the
//! announced fraction), status with its public counters, boosts, announced
//! volatiles, PP marks, locks and charges; per side conditions and the
//! switch/faint flow; the weather and the turn.
//!
//! Ids (species, moves) are dex indices, looked up by key in a
//! [`TrackerDex`]; a line naming something the dex does not know is
//! skipped.

use vstd::prelude::*;

use crate::protocol::{
    any_field_is, parse_i64, parse_i64_spec,
    split_comma_space, split_comma_space_chars, lemma_split_comma_space_nonempty,
    begins_with, chars_of, copy_chars, eq_chars, eq_str, field, field_at, find_stripped,
    first_stripped, parse_i32, parse_i32_spec, parse_u16, parse_u16_spec, split_chars,
    split_spec, strip_prefix_str, text_of, views,
};
use crate::text::to_id;
use crate::observe::{find_key, key_id, Gender, ItemObs, MonObs};
use crate::corpus::toid_chars;

verus! {

/// A major status, by its protocol token.
#[derive(Clone, Copy, Debug)]
pub enum Status {
    Healthy,
    Brn,
    Par,
    Slp,
    Frz,
    Psn,
    Tox,
}

/// The status a protocol token names (`brn`, `par`, `slp`, `frz`, `psn`,
/// `tox`); anything else is no status.
pub open spec fn status_of(token: Seq<char>) -> Status {
    if token == "brn"@ {
        Status::Brn
    } else if token == "par"@ {
        Status::Par
    } else if token == "slp"@ {
        Status::Slp
    } else if token == "frz"@ {
        Status::Frz
    } else if token == "psn"@ {
        Status::Psn
    } else if token == "tox"@ {
        Status::Tox
    } else {
        Status::Healthy
    }
}

pub fn status_from_token(token: &[char]) -> (s: Status)
    ensures
        s == status_of(token@),
{
    if eq_str(token, "brn") {
        Status::Brn
    } else if eq_str(token, "par") {
        Status::Par
    } else if eq_str(token, "slp") {
        Status::Slp
    } else if eq_str(token, "frz") {
        Status::Frz
    } else if eq_str(token, "psn") {
        Status::Psn
    } else if eq_str(token, "tox") {
        Status::Tox
    } else {
        Status::Healthy
    }
}

/// The dex tables the tracker reads: species and move keys (an id is the
/// index of its key) and the runtime conditions with whether Baton Pass
/// leaves them behind.
#[derive(Debug)]
pub struct TrackerDex {
    pub species: Vec<String>,
    pub moves: Vec<String>,
    pub conds: Vec<(String, bool)>,
}

/// One announced volatile.
#[derive(Debug)]
pub struct TVol {
    /// Condition key (`confusion`, `substitute`, ...).
    pub key: String,
    pub start_turn: u16,
    /// encore/disable: the locked move; partiallytrapped: the binding move.
    pub move_id: Option<usize>,
    /// `(side, slot)` of the volatile's source, when it matters.
    pub source: Option<(usize, usize)>,
    /// perishsong: remaining count.
    pub counter: Option<i64>,
}

/// One mon's tracked public state.
#[derive(Debug)]
pub struct TrackMon {
    pub species: usize,
    pub level: u8,
    pub gender: Gender,
    pub preview_item: bool,
    /// Nickname, learned at first appearance (empty until then).
    pub name: String,
    pub appeared: bool,
    pub appear_count: i32,
    pub switch_in_turn: u16,
    pub active: bool,
    pub fainted: bool,
    /// Last announced HP numerator (over `hp_den`).
    pub pixels: i32,
    pub hp_den: i32,
    pub status: Status,
    /// Sleep came from Rest.
    pub rest: bool,
    /// `|cant|...|slp` count since falling asleep.
    pub slept: i32,
    /// The Toxic counter companion.
    pub comp_res: Option<i32>,
    pub comp_brn: bool,
    pub comp_par: bool,
    pub boosts: [i8; 7],
    pub vols: Vec<TVol>,
    /// PP-mark deductions by move id.
    pub uses: Vec<(usize, i32)>,
    /// Thrash/rollout lock: (move, uses so far).
    pub locked: Option<(usize, i32)>,
    /// Two-turn move charge pending release.
    pub charging: Option<usize>,
    pub must_recharge: bool,
    pub transformed_into: Option<(usize, usize)>,
    pub mimic_overlay: Option<usize>,
    pub last_move: Option<usize>,
    pub stall_streak: i32,
    pub last_protect_turn: u16,
    pub protected_this_turn: bool,
}

/// One side's tracked public state.
#[derive(Debug)]
pub struct TrackSide {
    pub mons: Vec<TrackMon>,
    pub active: Option<usize>,
    /// (condition key, start turn).
    pub conds: Vec<(String, u16)>,
    pub pending_bp: bool,
    /// The side's action this turn is spent.
    pub acted_this_turn: bool,
    pub fainted_this_turn: Option<usize>,
    pub fainted_last_turn: Option<usize>,
    pub side_last_move: Option<usize>,
}

// ------------------------------------------------------------------ models

pub struct VolM {
    pub key: Seq<char>,
    pub start_turn: u16,
    pub move_id: Option<usize>,
    pub source: Option<(usize, usize)>,
    pub counter: Option<i64>,
}

pub struct MonM {
    pub species: usize,
    pub level: u8,
    pub gender: Gender,
    pub preview_item: bool,
    pub name: Seq<char>,
    pub appeared: bool,
    pub appear_count: i32,
    pub switch_in_turn: u16,
    pub active: bool,
    pub fainted: bool,
    pub pixels: i32,
    pub hp_den: i32,
    pub status: Status,
    pub rest: bool,
    pub slept: i32,
    pub comp_res: Option<i32>,
    pub comp_brn: bool,
    pub comp_par: bool,
    pub boosts: Seq<i8>,
    pub vols: Seq<VolM>,
    pub uses: Seq<(usize, i32)>,
    pub locked: Option<(usize, i32)>,
    pub charging: Option<usize>,
    pub must_recharge: bool,
    pub transformed_into: Option<(usize, usize)>,
    pub mimic_overlay: Option<usize>,
    pub last_move: Option<usize>,
    pub stall_streak: i32,
    pub last_protect_turn: u16,
    pub protected_this_turn: bool,
}

pub struct SideM {
    pub mons: Seq<MonM>,
    pub active: Option<usize>,
    pub conds: Seq<(Seq<char>, u16)>,
    pub pending_bp: bool,
    pub acted_this_turn: bool,
    pub fainted_this_turn: Option<usize>,
    pub fainted_last_turn: Option<usize>,
    pub side_last_move: Option<usize>,
}

pub open spec fn vol_m(v: TVol) -> VolM {
    VolM { key: v.key@, start_turn: v.start_turn, move_id: v.move_id, source: v.source, counter: v.counter }
}

#[verifier::opaque]
pub open spec fn mon_m(m: TrackMon) -> MonM {
    MonM {
        species: m.species,
        level: m.level,
        gender: m.gender,
        preview_item: m.preview_item,
        name: m.name@,
        appeared: m.appeared,
        appear_count: m.appear_count,
        switch_in_turn: m.switch_in_turn,
        active: m.active,
        fainted: m.fainted,
        pixels: m.pixels,
        hp_den: m.hp_den,
        status: m.status,
        rest: m.rest,
        slept: m.slept,
        comp_res: m.comp_res,
        comp_brn: m.comp_brn,
        comp_par: m.comp_par,
        boosts: m.boosts@,
        vols: m.vols@.map_values(|v: TVol| vol_m(v)),
        uses: m.uses@,
        locked: m.locked,
        charging: m.charging,
        must_recharge: m.must_recharge,
        transformed_into: m.transformed_into,
        mimic_overlay: m.mimic_overlay,
        last_move: m.last_move,
        stall_streak: m.stall_streak,
        last_protect_turn: m.last_protect_turn,
        protected_this_turn: m.protected_this_turn,
    }
}

pub open spec fn side_m(s: TrackSide) -> SideM {
    SideM {
        mons: s.mons@.map_values(|m: TrackMon| mon_m(m)),
        active: s.active,
        conds: s.conds@.map_values(|c: (String, u16)| (c.0@, c.1)),
        pending_bp: s.pending_bp,
        acted_this_turn: s.acted_this_turn,
        fainted_this_turn: s.fainted_this_turn,
        fainted_last_turn: s.fainted_last_turn,
        side_last_move: s.side_last_move,
    }
}


/// The tracker's state as plain values.
pub struct TrackerM {
    pub side: usize,
    pub sides: Seq<SideM>,
    pub weather: Option<(Seq<char>, u16)>,
    pub turn: u16,
    pub upkeep_this_turn: bool,
}

/// Player-visible protocol accumulator for one battle.
#[derive(Debug)]
pub struct ProtocolTracker {
    /// Our side (0 = p1).
    side: usize,
    side0: TrackSide,
    side1: TrackSide,
    /// (weather key, upkeeps seen since set).
    weather: Option<(String, u16)>,
    turn: u16,
    upkeep_this_turn: bool,
}

pub open spec fn empty_side() -> SideM {
    SideM {
        mons: Seq::empty(),
        active: None,
        conds: Seq::empty(),
        pending_bp: false,
        acted_this_turn: false,
        fainted_this_turn: None,
        fainted_last_turn: None,
        side_last_move: None,
    }
}

fn new_side() -> (s: TrackSide)
    ensures
        side_m(s) == empty_side(),
{
    let s = TrackSide {
        mons: Vec::new(),
        active: None,
        conds: Vec::new(),
        pending_bp: false,
        acted_this_turn: false,
        fainted_this_turn: None,
        fainted_last_turn: None,
        side_last_move: None,
    };
    assert(side_m(s).mons =~= Seq::<MonM>::empty());
    assert(side_m(s).conds =~= Seq::<(Seq<char>, u16)>::empty());
    s
}

pub open spec fn upd_side(t: TrackerM, s: int, side: SideM) -> TrackerM {
    TrackerM { sides: t.sides.update(s, side), ..t }
}

pub open spec fn upd_mon(t: TrackerM, s: int, m: int, mon: MonM) -> TrackerM {
    upd_side(t, s, SideM { mons: t.sides[s].mons.update(m, mon), ..t.sides[s] })
}

impl ProtocolTracker {
    pub closed spec fn model(&self) -> TrackerM {
        TrackerM {
            side: self.side,
            sides: seq![side_m(self.side0), side_m(self.side1)],
            weather: match self.weather {
                Some(w) => Some((w.0@, w.1)),
                None => None,
            },
            turn: self.turn,
            upkeep_this_turn: self.upkeep_this_turn,
        }
    }

    /// A tracker for our side `side` (0 = p1) with nothing seen yet.
    pub fn new(side: usize) -> (t: Self)
        requires
            side <= 1,
        ensures
            tracker_wf(t.model()),
            t.model() == (TrackerM {
                side,
                sides: seq![empty_side(), empty_side()],
                weather: None,
                turn: 0,
                upkeep_this_turn: false,
            }),
    {
        ProtocolTracker { side, side0: new_side(), side1: new_side(), weather: None, turn: 0, upkeep_this_turn: false }
    }

    pub fn turn(&self) -> (r: u16)
        ensures
            r == self.model().turn,
    {
        self.turn
    }

    pub fn opp_roster_len(&self) -> (r: usize)
        requires
            self.model().side <= 1,
        ensures
            r == self.model().sides[1 - self.model().side].mons.len(),
    {
        if self.side == 0 {
            self.side1.mons.len()
        } else {
            self.side0.mons.len()
        }
    }

    fn take_side(&mut self, s: usize) -> (r: TrackSide)
        requires
            s <= 1,
        ensures
            side_m(r) == old(self).model().sides[s as int],
            final(self).model() == upd_side(old(self).model(), s as int, empty_side()),
    {
        let mut tmp = new_side();
        if s == 1 {
            core::mem::swap(&mut self.side1, &mut tmp);
        } else {
            core::mem::swap(&mut self.side0, &mut tmp);
        }
        proof {
            assert(self.model().sides =~= old(self).model().sides.update(s as int, empty_side()));
        }
        tmp
    }

    fn put_side(&mut self, s: usize, side: TrackSide)
        requires
            s <= 1,
        ensures
            final(self).model() == upd_side(old(self).model(), s as int, side_m(side)),
    {
        if s == 1 {
            self.side1 = side;
        } else {
            self.side0 = side;
        }
        proof {
            assert(self.model().sides =~= old(self).model().sides.update(s as int, side_m(side)));
        }
    }
}


pub open spec fn blank_mon() -> MonM {
    MonM {
        species: 0,
        level: 0,
        gender: Gender::N,
        preview_item: false,
        name: Seq::empty(),
        appeared: false,
        appear_count: 0,
        switch_in_turn: 0,
        active: false,
        fainted: false,
        pixels: 0,
        hp_den: 0,
        status: Status::Healthy,
        rest: false,
        slept: 0,
        comp_res: None,
        comp_brn: false,
        comp_par: false,
        boosts: seq![0i8, 0i8, 0i8, 0i8, 0i8, 0i8, 0i8],
        vols: Seq::empty(),
        uses: Seq::empty(),
        locked: None,
        charging: None,
        must_recharge: false,
        transformed_into: None,
        mimic_overlay: None,
        last_move: None,
        stall_streak: 0,
        last_protect_turn: 0,
        protected_this_turn: false,
    }
}

fn blank_track_mon() -> (m: TrackMon)
    ensures
        mon_m(m) == blank_mon(),
{
    reveal(mon_m);
    let m = TrackMon {
        species: 0,
        level: 0,
        gender: Gender::N,
        preview_item: false,
        name: String::new(),
        appeared: false,
        appear_count: 0,
        switch_in_turn: 0,
        active: false,
        fainted: false,
        pixels: 0,
        hp_den: 0,
        status: Status::Healthy,
        rest: false,
        slept: 0,
        comp_res: None,
        comp_brn: false,
        comp_par: false,
        boosts: [0i8; 7],
        vols: Vec::new(),
        uses: Vec::new(),
        locked: None,
        charging: None,
        must_recharge: false,
        transformed_into: None,
        mimic_overlay: None,
        last_move: None,
        stall_streak: 0,
        last_protect_turn: 0,
        protected_this_turn: false,
    };
    assert(mon_m(m).boosts =~= seq![0i8, 0i8, 0i8, 0i8, 0i8, 0i8, 0i8]);
    assert(mon_m(m).vols =~= Seq::<VolM>::empty());
    assert(mon_m(m).name =~= Seq::<char>::empty());
    m
}

impl TrackSide {
    fn take_mon(&mut self, m: usize) -> (r: TrackMon)
        requires
            m < old(self).mons@.len(),
        ensures
            mon_m(r) == side_m(*old(self)).mons[m as int],
            side_m(*final(self)) == (SideM { mons: side_m(*old(self)).mons.update(m as int, blank_mon()), ..side_m(*old(self)) }),
            final(self).mons@.len() == old(self).mons@.len(),
            final(self).active == old(self).active,
    {
        let mut tmp = blank_track_mon();
        self.mons.set_and_swap(m, &mut tmp);
        proof {
            assert(side_m(*self).mons =~= side_m(*old(self)).mons.update(m as int, blank_mon()));
        }
        tmp
    }

    fn put_mon(&mut self, m: usize, mon: TrackMon)
        requires
            m < old(self).mons@.len(),
        ensures
            side_m(*final(self)) == (SideM { mons: side_m(*old(self)).mons.update(m as int, mon_m(mon)), ..side_m(*old(self)) }),
            final(self).mons@.len() == old(self).mons@.len(),
            final(self).active == old(self).active,
    {
        self.mons.set(m, mon);
        proof {
            assert(side_m(*self).mons =~= side_m(*old(self)).mons.update(m as int, mon_m(mon)));
        }
    }
}

// ---------------------------------------------------------------- subjects

/// A subject field names side `p1`/`p2` (at least two bytes).
pub open spec fn side_subject(s: Seq<char>) -> Option<usize> {
    let b = vstd::utf8::encode_utf8(s);
    if b.len() >= 2 && b[0] == 0x70u8 && (b[1] == 0x31u8 || b[1] == 0x32u8) {
        Some((b[1] - 0x31) as usize)
    } else {
        None
    }
}

fn side_subject_exec(s: &[char]) -> (r: Option<usize>)
    ensures
        r == side_subject(s@),
{
    let t = text_of(s);
    let b = t.as_str().as_bytes();
    if b.len() >= 2 && b[0] == 0x70u8 && (b[1] == 0x31u8 || b[1] == 0x32u8) {
        Some((b[1] - 0x31) as usize)
    } else {
        None
    }
}

/// The first slot of `mons` whose nickname is `n`, from `i` on.
pub open spec fn slot_named(mons: Seq<MonM>, n: Seq<char>, i: int) -> Option<usize>
    decreases mons.len() - i,
{
    if i < 0 || i >= mons.len() {
        None
    } else if mons[i].name == n {
        Some(i as usize)
    } else {
        slot_named(mons, n, i + 1)
    }
}

/// `"p2a: Nick"` / `"p2: Nick"` as (side, roster slot) through the
/// nicknames learned so far: a side subject of at least four bytes, an
/// optional position letter, `": "`, and a known nickname (the first slot
/// bearing it).
pub open spec fn subject_spec(t: TrackerM, s: Seq<char>) -> Option<(usize, usize)> {
    let b = vstd::utf8::encode_utf8(s);
    if !(b.len() >= 4 && b[0] == 0x70u8 && (b[1] == 0x31u8 || b[1] == 0x32u8)) || s.len() < 2 {
        None
    } else {
        let side = (b[1] - 0x31) as usize;
        let rest = s.skip(2);
        let rest = if rest.len() > 0 && 'a' <= rest[0] <= 'z' { rest.skip(1) } else { rest };
        if !begins_with(rest, ": "@) {
            None
        } else {
            match slot_named(t.sides[side as int].mons, rest.skip(2), 0) {
                Some(slot) => Some((side, slot)),
                None => None,
            }
        }
    }
}

fn skip_first(v: &[char], n: usize) -> (r: Vec<char>)
    requires
        n <= v@.len(),
    ensures
        r@ == v@.skip(n as int),
{
    let mut r: Vec<char> = Vec::new();
    for k in n..v.len()
        invariant
            n <= v@.len(),
            r@ == v@.subrange(n as int, k as int),
    {
        r.push(v[k]);
        assert(v@.subrange(n as int, k + 1) =~= v@.subrange(n as int, k as int).push(v@[k as int]));
    }
    assert(v@.subrange(n as int, v@.len() as int) =~= v@.skip(n as int));
    r
}

impl ProtocolTracker {
    pub closed spec fn wf(&self) -> bool {
        self.side <= 1
    }

    fn side_ref(&self, s: usize) -> (r: &TrackSide)
        requires
            s <= 1,
        ensures
            side_m(*r) == self.model().sides[s as int],
    {
        if s == 1 {
            &self.side1
        } else {
            &self.side0
        }
    }

    fn subject(&self, s: &[char]) -> (r: Option<(usize, usize)>)
        ensures
            r == subject_spec(self.model(), s@),
            r matches Some((a, b)) ==> a <= 1 && b < self.model().sides[a as int].mons.len(),
    {
        let t = text_of(s);
        let b = t.as_str().as_bytes();
        if !(b.len() >= 4 && b[0] == 0x70u8 && (b[1] == 0x31u8 || b[1] == 0x32u8)) || s.len() < 2 {
            return None;
        }
        let side = (b[1] - 0x31) as usize;
        let rest = skip_first(s, 2);
        let rest = if rest.len() > 0 && 'a' <= rest[0] && rest[0] <= 'z' { skip_first(&rest, 1) } else { rest };
        let name = match strip_prefix_str(&rest, ": ") {
            Some(n) => {
                proof {
                    reveal_strlit(": ");
                }
                n
            },
            None => {
                return None;
            },
        };
        let sd = self.side_ref(side);
        let ghost mons = side_m(*sd).mons;
        let mut i: usize = sd.mons.len();
        let mut found: Option<usize> = None;
        while i > 0
            invariant
                i <= sd.mons@.len(),
                mons == side_m(*sd).mons,
                found == slot_named(mons, name@, i as int),
                found matches Some(f) ==> f < mons.len(),
            decreases i,
        {
            i = i - 1;
            assert(mons[i as int] == mon_m(sd.mons@[i as int]));
            proof {
                reveal(mon_m);
            }
            let c = chars_of(sd.mons[i].name.as_str());
            if eq_chars(&c, &name) {
                found = Some(i);
            }
        }
        match found {
            Some(slot) => Some((side, slot)),
            None => None,
        }
    }
}


// ---------------------------------------------------------------- details

/// `s.parse::<u8>()`.
pub open spec fn parse_u8_spec(s: Seq<char>) -> Option<u8> {
    match parse_u16_spec(s) {
        Some(v) => if v <= 255 { Some(v as u8) } else { None },
        None => None,
    }
}

fn parse_u8(s: &[char]) -> (r: Option<u8>)
    ensures
        r == parse_u8_spec(s@),
{
    match parse_u16(s) {
        Some(v) => if v <= 255 { Some(v as u8) } else { None },
        None => None,
    }
}

/// Level and gender after the details parts `1..n` (level 100 and no
/// gender unless a part says otherwise; later parts win).
pub open spec fn details_fold(parts: Seq<Seq<char>>, n: int) -> (u8, Gender)
    decreases n,
{
    if n <= 1 {
        (100u8, Gender::N)
    } else {
        let prev = details_fold(parts, n - 1);
        let part = parts[n - 1];
        if begins_with(part, "L"@) {
            match parse_u8_spec(part.skip(1)) {
                Some(v) => (v, prev.1),
                None => prev,
            }
        } else if part == "M"@ {
            (prev.0, Gender::M)
        } else if part == "F"@ {
            (prev.0, Gender::F)
        } else {
            prev
        }
    }
}

/// `"Species, L50, M"` as (species id, level, gender); `None` when the
/// dex does not know the species.
pub open spec fn details_spec(dex_species: Seq<String>, details: Seq<char>) -> Option<(usize, u8, Gender)> {
    let parts = split_comma_space(details);
    let lg = details_fold(parts, parts.len() as int);
    match key_id(dex_species, to_id(parts[0]), 0) {
        Some(id) => Some((id, lg.0, lg.1)),
        None => None,
    }
}

fn parse_details(dex: &TrackerDex, details: &[char]) -> (r: Option<(usize, u8, Gender)>)
    ensures
        r == details_spec(dex.species@, details@),
        r matches Some((id, _, _)) ==> id < dex.species@.len(),
{
    let parts = split_comma_space_chars(details);
    let ghost pv = views(parts@);
    proof {
        lemma_split_comma_space_nonempty(details@);
    }
    let mut level: u8 = 100;
    let mut gender = Gender::N;
    for i in 1..parts.len()
        invariant
            pv == views(parts@),
            pv.len() >= 1,
            (level, gender) == details_fold(pv, i as int),
    {
        let part = &parts[i];
        assert(pv[i as int] == part@);
        match strip_prefix_str(part, "L") {
            Some(l) => {
                proof {
                    reveal_strlit("L");
                }
                match parse_u8(&l) {
                    Some(v) => {
                        level = v;
                    },
                    None => {},
                }
            },
            None => {
                if eq_str(part, "M") {
                    gender = Gender::M;
                } else if eq_str(part, "F") {
                    gender = Gender::F;
                }
            },
        }
    }
    assert(pv[0] == parts@[0]@);
    match find_key(&dex.species, &toid_chars(&parts[0])) {
        Some(id) => Some((id, level, gender)),
        None => None,
    }
}


/// `"Species, L50, M"` read against the dex: species id, level (100 when
/// none is given) and gender; `None` when the dex does not know the
/// species.
pub fn read_details(dex: &TrackerDex, details: &str) -> (r: Option<(usize, u8, Gender)>)
    ensures
        r == details_spec(dex.species@, details@),
{
    parse_details(dex, &chars_of(details))
}


// ------------------------------------------------------------ mon updates

/// A mon as first seen at team preview.
pub open spec fn new_mon(species: usize, level: u8, gender: Gender, item: bool) -> MonM {
    MonM { species, level, gender, preview_item: item, pixels: 48, hp_den: 48, ..blank_mon() }
}

/// Everything a switch-out clears.
pub open spec fn cleared_on_exit(m: MonM) -> MonM {
    MonM {
        boosts: seq![0i8, 0i8, 0i8, 0i8, 0i8, 0i8, 0i8],
        vols: Seq::empty(),
        locked: None,
        charging: None,
        must_recharge: false,
        transformed_into: None,
        mimic_overlay: None,
        last_move: None,
        stall_streak: 0,
        protected_this_turn: false,
        comp_res: None,
        comp_brn: false,
        comp_par: false,
        ..m
    }
}

/// A cure: the status and its public counters go; the companions stay.
pub open spec fn cured(m: MonM) -> MonM {
    MonM { status: Status::Healthy, rest: false, slept: 0, ..m }
}

/// The volatiles without those keyed `key`.
pub open spec fn vols_without(vols: Seq<VolM>, key: Seq<char>) -> Seq<VolM>
    decreases vols.len(),
{
    if vols.len() == 0 {
        vols
    } else if vols.last().key == key {
        vols_without(vols.drop_last(), key)
    } else {
        vols_without(vols.drop_last(), key).push(vols.last())
    }
}

/// Some volatile is keyed `key`.
pub open spec fn has_vol(vols: Seq<VolM>, key: Seq<char>) -> bool {
    exists|i: int| 0 <= i < vols.len() && (#[trigger] vols[i]).key == key
}

/// A trapping volatile linked to the source `(side, slot)`.
pub open spec fn linked_to(v: VolM, src: (usize, usize)) -> bool {
    v.source == Some(src) && (v.key == "trapped"@ || v.key == "partiallytrapped"@)
}

/// The volatiles without those linked to `src`.
pub open spec fn vols_unlinked(vols: Seq<VolM>, src: (usize, usize)) -> Seq<VolM>
    decreases vols.len(),
{
    if vols.len() == 0 {
        vols
    } else if linked_to(vols.last(), src) {
        vols_unlinked(vols.drop_last(), src)
    } else {
        vols_unlinked(vols.drop_last(), src).push(vols.last())
    }
}

/// Every mon of both sides loses the trapping volatiles `src` held on it.
pub open spec fn clear_sourced(t: TrackerM, src: (usize, usize)) -> TrackerM {
    TrackerM {
        sides: Seq::new(t.sides.len(), |s: int| SideM {
            mons: Seq::new(t.sides[s].mons.len(), |m: int| MonM { vols: vols_unlinked(t.sides[s].mons[m].vols, src), ..t.sides[s].mons[m] }),
            ..t.sides[s]
        }),
        ..t
    }
}

/// An HP-status announcement read into a mon: `fnt` empties it; otherwise
/// the numerator, a positive denominator, and the status (a stated token
/// sets it, none clears it).
#[verifier::opaque]
pub open spec fn with_hp_status(m: MonM, fld: Seq<char>) -> MonM {
    let hp = crate::import::hp_field(fld);
    if hp.2 == "fnt"@ {
        MonM { pixels: 0, ..m }
    } else {
        let st = status_of(hp.2);
        MonM {
            pixels: hp.0,
            hp_den: if hp.1 > 0 { hp.1 } else { m.hp_den },
            status: if st != m.status && hp.2.len() > 0 {
                st
            } else if hp.2.len() == 0 && m.status != Status::Healthy {
                Status::Healthy
            } else {
                m.status
            },
            ..m
        }
    }
}

/// The key of move `id` (empty for an id past the table).
pub open spec fn move_key(dex: TrackerDex, id: usize) -> Seq<char> {
    if id < dex.moves@.len() {
        dex.moves@[id as int]@
    } else {
        Seq::empty()
    }
}

/// A rollout lock ends.
pub open spec fn rollout_unlocked(dex: TrackerDex, m: MonM) -> MonM {
    match m.locked {
        Some((lm, _)) => if move_key(dex, lm) == "rollout"@ {
            MonM { locked: None, ..m }
        } else {
            m
        },
        None => m,
    }
}


pub open spec fn vols_m(v: Seq<TVol>) -> Seq<VolM> {
    v.map_values(|x: TVol| vol_m(x))
}

fn copy_vol(v: &TVol) -> (r: TVol)
    ensures
        vol_m(r) == vol_m(*v),
{
    TVol { key: String::from_str(v.key.as_str()), start_turn: v.start_turn, move_id: v.move_id, source: v.source, counter: v.counter }
}

impl TrackMon {
    fn fresh(species: usize, level: u8, gender: Gender, item: bool) -> (m: TrackMon)
        ensures
            mon_m(m) == new_mon(species, level, gender, item),
    {
        reveal(mon_m);
        let mut m = blank_track_mon();
        m.species = species;
        m.level = level;
        m.gender = gender;
        m.preview_item = item;
        m.pixels = 48;
        m.hp_den = 48;
        m
    }

    fn clear_on_exit(&mut self)
        ensures
            mon_m(*final(self)) == cleared_on_exit(mon_m(*old(self))),
    {
        reveal(mon_m);
        self.boosts = [0i8; 7];
        self.vols = Vec::new();
        self.locked = None;
        self.charging = None;
        self.must_recharge = false;
        self.transformed_into = None;
        self.mimic_overlay = None;
        self.last_move = None;
        self.stall_streak = 0;
        self.protected_this_turn = false;
        self.comp_res = None;
        self.comp_brn = false;
        self.comp_par = false;
        proof {
            assert(mon_m(*self).boosts =~= seq![0i8, 0i8, 0i8, 0i8, 0i8, 0i8, 0i8]);
            assert(mon_m(*self).vols =~= Seq::<VolM>::empty());
            assert(mon_m(*self) =~= cleared_on_exit(mon_m(*old(self))));
        }
    }

    fn cure(&mut self)
        ensures
            mon_m(*final(self)) == cured(mon_m(*old(self))),
    {
        reveal(mon_m);
        self.status = Status::Healthy;
        self.rest = false;
        self.slept = 0;
    }

    fn has_vol(&self, key: &[char]) -> (r: bool)
        ensures
            r == has_vol(mon_m(*self).vols, key@),
    {
        reveal(mon_m);
        let ghost vm = vols_m(self.vols@);
        for i in 0..self.vols.len()
            invariant
                vm == vols_m(self.vols@),
                forall|j: int| 0 <= j < i ==> vm[j].key != key@,
        {
            assert(vm[i as int] == vol_m(self.vols@[i as int]));
            let k = chars_of(self.vols[i].key.as_str());
            if eq_chars(&k, key) {
                proof {
                    reveal(mon_m);
                    assert(mon_m(*self).vols[i as int].key == key@);
                }
                return true;
            }
        }
        false
    }

    fn drop_vols(&mut self, key: &[char])
        ensures
            mon_m(*final(self)) == (MonM { vols: vols_without(mon_m(*old(self)).vols, key@), ..mon_m(*old(self)) }),
    {
        reveal(mon_m);
        let ghost vm = vols_m(self.vols@);
        let mut kept: Vec<TVol> = Vec::new();
        for i in 0..self.vols.len()
            invariant
                vm == vols_m(self.vols@),
                *self == *old(self),
                vols_m(kept@) == vols_without(vm.take(i as int), key@),
        {
            assert(vm.take(i + 1).drop_last() =~= vm.take(i as int));
            assert(vm.take(i + 1).last() == vol_m(self.vols@[i as int]));
            let k = chars_of(self.vols[i].key.as_str());
            if !eq_chars(&k, key) {
                let ghost before = vols_m(kept@);
                kept.push(copy_vol(&self.vols[i]));
                assert(vols_m(kept@) =~= before.push(vm[i as int]));
            }
        }
        assert(vm.take(vm.len() as int) =~= vm);
        self.vols = kept;
        proof {
            assert(mon_m(*self) =~= (MonM { vols: vols_without(mon_m(*old(self)).vols, key@), ..mon_m(*old(self)) }));
        }
    }

    fn drop_linked(&mut self, src: (usize, usize))
        ensures
            mon_m(*final(self)) == (MonM { vols: vols_unlinked(mon_m(*old(self)).vols, src), ..mon_m(*old(self)) }),
    {
        reveal(mon_m);
        let ghost vm = vols_m(self.vols@);
        let mut kept: Vec<TVol> = Vec::new();
        for i in 0..self.vols.len()
            invariant
                vm == vols_m(self.vols@),
                *self == *old(self),
                vols_m(kept@) == vols_unlinked(vm.take(i as int), src),
        {
            assert(vm.take(i + 1).drop_last() =~= vm.take(i as int));
            assert(vm.take(i + 1).last() == vol_m(self.vols@[i as int]));
            let v = &self.vols[i];
            let k = chars_of(v.key.as_str());
            let linked = match v.source {
                Some(x) => x.0 == src.0 && x.1 == src.1,
                None => false,
            } && (eq_str(&k, "trapped") || eq_str(&k, "partiallytrapped"));
            if !linked {
                let ghost before = vols_m(kept@);
                kept.push(copy_vol(v));
                assert(vols_m(kept@) =~= before.push(vm[i as int]));
            }
        }
        assert(vm.take(vm.len() as int) =~= vm);
        self.vols = kept;
        proof {
            assert(mon_m(*self) =~= (MonM { vols: vols_unlinked(mon_m(*old(self)).vols, src), ..mon_m(*old(self)) }));
        }
    }

    fn apply_hp_status(&mut self, fld: &[char])
        ensures
            mon_m(*final(self)) == with_hp_status(mon_m(*old(self)), fld@),
    {
        reveal(mon_m);
        reveal(with_hp_status);
        let t = text_of(fld);
        let (cur, max, status) = crate::import::parse_hp(t.as_str());
        let st_chars = chars_of(status.as_str());
        if eq_str(&st_chars, "fnt") {
            self.pixels = 0;
        } else {
            self.pixels = cur;
            if max > 0 {
                self.hp_den = max;
            }
            let st = status_from_token(&st_chars);
            let differs = match (st, self.status) {
                (Status::Healthy, Status::Healthy) => false,
                (Status::Brn, Status::Brn) => false,
                (Status::Par, Status::Par) => false,
                (Status::Slp, Status::Slp) => false,
                (Status::Frz, Status::Frz) => false,
                (Status::Psn, Status::Psn) => false,
                (Status::Tox, Status::Tox) => false,
                _ => true,
            };
            let none_now = match self.status {
                Status::Healthy => true,
                _ => false,
            };
            if differs && st_chars.len() > 0 {
                self.status = st;
            } else if st_chars.len() == 0 && !none_now {
                self.status = Status::Healthy;
            }
        }
    }

    fn unlock_rollout(&mut self, dex: &TrackerDex)
        ensures
            mon_m(*final(self)) == rollout_unlocked(*dex, mon_m(*old(self))),
    {
        reveal(mon_m);
        let ghost m0 = mon_m(*self);
        match self.locked {
            Some((lm, _)) => {
                assert(m0.locked == Some((lm, self.locked.unwrap().1)));
                if lm < dex.moves.len() {
                    let k = chars_of(dex.moves[lm].as_str());
                    assert(k@ == move_key(*dex, lm));
                    if eq_str(&k, "rollout") {
                        self.locked = None;
                        assert(mon_m(*self) =~= (MonM { locked: None, ..m0 }));
                    } else {
                        assert(rollout_unlocked(*dex, m0) == m0);
                    }
                } else {
                    proof {
                        reveal_strlit("rollout");
                    }
                    assert(move_key(*dex, lm) == Seq::<char>::empty());
                    assert(rollout_unlocked(*dex, m0) == m0);
                }
            },
            None => {},
        }
    }
}


// ---------------------------------------------------------------- commands

/// The active slot names a roster mon.
pub open spec fn side_wf(sd: SideM) -> bool {
    sd.active matches Some(a) ==> a < sd.mons.len()
}

/// Each side's active slot names a roster mon.
pub open spec fn tracker_wf(t: TrackerM) -> bool {
    &&& t.side <= 1
    &&& t.sides.len() == 2
    &&& side_wf(t.sides[0])
    &&& side_wf(t.sides[1])
}

impl ProtocolTracker {
    fn begin_mon(&mut self, s: usize, m: usize) -> (r: (TrackSide, TrackMon))
        requires
            s <= 1,
            m < old(self).model().sides[s as int].mons.len(),
        ensures
            side_m(r.0) == (SideM { mons: old(self).model().sides[s as int].mons.update(m as int, blank_mon()), ..old(self).model().sides[s as int] }),
            mon_m(r.1) == old(self).model().sides[s as int].mons[m as int],
            final(self).model() == upd_side(old(self).model(), s as int, empty_side()),
    {
        let mut sd = self.take_side(s);
        let mon = sd.take_mon(m);
        (sd, mon)
    }

    fn end_mon(&mut self, s: usize, m: usize, sd: TrackSide, mon: TrackMon)
        requires
            s <= 1,
            m < side_m(sd).mons.len(),
        ensures
            final(self).model() == upd_side(old(self).model(), s as int, SideM { mons: side_m(sd).mons.update(m as int, mon_m(mon)), ..side_m(sd) }),
    {
        let mut sd = sd;
        sd.put_mon(m, mon);
        self.put_side(s, sd);
    }
}

impl ProtocolTracker {
    /// Puts back a mon taken out by `begin_mon` with its side: the tracker
    /// is the one before, with only that mon replaced.
    fn finish_mon(&mut self, s: usize, m: usize, sd: TrackSide, mon: TrackMon, Ghost(t0): Ghost<TrackerM>)
        requires
            s <= 1,
            tracker_wf(t0),
            m < t0.sides[s as int].mons.len(),
            old(self).model() == upd_side(t0, s as int, empty_side()),
            side_m(sd) == (SideM { mons: t0.sides[s as int].mons.update(m as int, blank_mon()), ..t0.sides[s as int] }),
        ensures
            final(self).model() == upd_mon(t0, s as int, m as int, mon_m(mon)),
            tracker_wf(final(self).model()),
    {
        let ghost mm = mon_m(mon);
        let ghost sd0 = side_m(sd);
        self.end_mon(s, m, sd, mon);
        proof {
            lemma_upd_side_twice(t0, s as int, empty_side(), SideM { mons: sd0.mons.update(m as int, mm), ..sd0 });
            assert(sd0.mons.update(m as int, mm) =~= t0.sides[s as int].mons.update(m as int, mm));
        }
    }
}

proof fn lemma_upd_side_twice(t: TrackerM, s: int, a: SideM, b: SideM)
    requires
        0 <= s < t.sides.len(),
    ensures
        upd_side(upd_side(t, s, a), s, b) == upd_side(t, s, b),
{
    assert(upd_side(upd_side(t, s, a), s, b).sides =~= upd_side(t, s, b).sides);
}

/// `|poke|p1|Species, L50, M|item`: a roster mon of a side, as previewed.
#[verifier::opaque]
pub open spec fn poke_spec(dex: TrackerDex, t: TrackerM, parts: Seq<Seq<char>>) -> TrackerM {
    match side_subject(field(parts, 1)) {
        None => t,
        Some(side) => match details_spec(dex.species@, field(parts, 2)) {
            None => t,
            Some((sp, lv, g)) => upd_side(t, side as int, SideM {
                mons: t.sides[side as int].mons.push(new_mon(sp, lv, g, field(parts, 3) == "item"@)),
                ..t.sides[side as int]
            }),
        },
    }
}

/// The stall bookkeeping of an active mon when a new turn `turn` begins.
pub open spec fn stall_at_turn(m: MonM, turn: u16) -> MonM {
    if m.protected_this_turn {
        MonM {
            stall_streak: vstd::wrapping::i32_specs::wrapping_add(m.stall_streak, 1),
            last_protect_turn: vstd::wrapping::u16_specs::wrapping_sub(turn, 1),
            protected_this_turn: false,
            ..m
        }
    } else if (vstd::wrapping::u16_specs::wrapping_add(m.last_protect_turn, 1) as int) < (if turn > 1 { turn as int } else { 1 }) {
        MonM { stall_streak: 0, ..m }
    } else {
        m
    }
}

/// One side at the start of turn `turn`.
pub open spec fn side_at_turn(sd: SideM, turn: u16) -> SideM {
    let base = SideM {
        acted_this_turn: false,
        pending_bp: false,
        fainted_last_turn: sd.fainted_this_turn,
        fainted_this_turn: None,
        ..sd
    };
    match sd.active {
        Some(a) => SideM { mons: sd.mons.update(a as int, stall_at_turn(sd.mons[a as int], turn)), ..base },
        None => base,
    }
}

/// `|turn|N`: the turn number (the next one when it does not parse), the
/// per-turn flags reset, and the actives' stall bookkeeping.
#[verifier::opaque]
pub open spec fn turn_spec(t: TrackerM, parts: Seq<Seq<char>>) -> TrackerM {
    let turn = match parse_u16_spec(field(parts, 1)) {
        Some(v) => v,
        None => vstd::wrapping::u16_specs::wrapping_add(t.turn, 1),
    };
    TrackerM {
        turn,
        upkeep_this_turn: false,
        sides: seq![side_at_turn(t.sides[0], turn), side_at_turn(t.sides[1], turn)],
        ..t
    }
}

impl TrackMon {
    fn stall_at_turn(&mut self, turn: u16)
        ensures
            mon_m(*final(self)) == stall_at_turn(mon_m(*old(self)), turn),
    {
        reveal(mon_m);
        if self.protected_this_turn {
            self.stall_streak = self.stall_streak.wrapping_add(1);
            self.last_protect_turn = turn.wrapping_sub(1);
            self.protected_this_turn = false;
        } else if (self.last_protect_turn.wrapping_add(1)) < (if turn > 1 { turn } else { 1 }) {
            self.stall_streak = 0;
        }
    }
}

impl TrackSide {
    fn at_turn(&mut self, turn: u16)
        requires
            old(self).active matches Some(a) ==> a < old(self).mons@.len(),
        ensures
            side_m(*final(self)) == side_at_turn(side_m(*old(self)), turn),
    {
        self.acted_this_turn = false;
        self.pending_bp = false;
        self.fainted_last_turn = self.fainted_this_turn;
        self.fainted_this_turn = None;
        match self.active {
            Some(a) => {
                let mut mon = self.take_mon(a);
                mon.stall_at_turn(turn);
                self.put_mon(a, mon);
                proof {
                    assert(side_m(*self).mons =~= side_m(*old(self)).mons.update(a as int, stall_at_turn(side_m(*old(self)).mons[a as int], turn)));
                }
            },
            None => {},
        }
    }
}

impl ProtocolTracker {
    fn on_poke(&mut self, dex: &TrackerDex, parts: &Vec<Vec<char>>)
        requires
            tracker_wf(old(self).model()),
        ensures
            tracker_wf(final(self).model()),
            final(self).model() == poke_spec(*dex, old(self).model(), views(parts@)),
    {
        reveal(poke_spec);
        let side = match side_subject_exec(&field_at(parts, 1)) {
            Some(s) => s,
            None => {
                return;
            },
        };
        assert(side <= 1) by {
            let b = vstd::utf8::encode_utf8(field(views(parts@), 1));
            assert(b[1] == 0x31u8 || b[1] == 0x32u8);
        }
        match parse_details(dex, &field_at(parts, 2)) {
            None => {},
            Some((sp, lv, g)) => {
                let item = eq_str(&field_at(parts, 3), "item");
                let mut sd = self.take_side(side);
                sd.mons.push(TrackMon::fresh(sp, lv, g, item));
                proof {
                    assert(side_m(sd).mons =~= old(self).model().sides[side as int].mons.push(new_mon(sp, lv, g, item)));
                }
                self.put_side(side, sd);
                proof {
                    lemma_upd_side_twice(old(self).model(), side as int, empty_side(), side_m(sd));
                }
            },
        }
    }

    fn on_turn(&mut self, parts: &Vec<Vec<char>>)
        requires
            tracker_wf(old(self).model()),
        ensures
            tracker_wf(final(self).model()),
            final(self).model() == turn_spec(old(self).model(), views(parts@)),
    {
        reveal(turn_spec);
        let turn = match parse_u16(&field_at(parts, 1)) {
            Some(v) => v,
            None => self.turn.wrapping_add(1),
        };
        self.turn = turn;
        self.upkeep_this_turn = false;
        assert(old(self).model().sides[0] == side_m(self.side0));
        assert(old(self).model().sides[1] == side_m(self.side1));
        self.side0.at_turn(turn);
        self.side1.at_turn(turn);
        proof {
            assert(self.model().sides =~= seq![side_at_turn(old(self).model().sides[0], turn), side_at_turn(old(self).model().sides[1], turn)]);
        }
    }
}


impl ProtocolTracker {
    fn clear_sourced_vols(&mut self, src: (usize, usize))
        requires
            tracker_wf(old(self).model()),
        ensures
            tracker_wf(final(self).model()),
            final(self).model() == clear_sourced(old(self).model(), src),
    {
        let ghost t0 = self.model();
        let ghost target = clear_sourced(t0, src);
        for s in 0..2usize
            invariant
                tracker_wf(self.model()),
                tracker_wf(t0),
                t0.sides.len() == 2,
                self.model().side == t0.side,
                self.model().turn == t0.turn,
                self.model().weather == t0.weather,
                self.model().upkeep_this_turn == t0.upkeep_this_turn,
                target == clear_sourced(t0, src),
                forall|k: int| 0 <= k < s ==> self.model().sides[k] == target.sides[k],
                forall|k: int| s <= k < 2 ==> self.model().sides[k] == t0.sides[k],
        {
            let mut sd = self.take_side(s);
            let ghost sd0 = side_m(sd);
            let n = sd.mons.len();
            for m in 0..n
                invariant
                    n == sd.mons@.len(),
                    s < 2,
                    t0.sides.len() == 2,
                    target == clear_sourced(t0, src),
                    sd0 == t0.sides[s as int],
                    side_m(sd).active == sd0.active,
                    side_m(sd).conds == sd0.conds,
                    side_m(sd).pending_bp == sd0.pending_bp,
                    side_m(sd).acted_this_turn == sd0.acted_this_turn,
                    side_m(sd).fainted_this_turn == sd0.fainted_this_turn,
                    side_m(sd).fainted_last_turn == sd0.fainted_last_turn,
                    side_m(sd).side_last_move == sd0.side_last_move,
                    side_m(sd).mons.len() == sd0.mons.len(),
                    forall|j: int| 0 <= j < m ==> side_m(sd).mons[j] == (MonM { vols: vols_unlinked(sd0.mons[j].vols, src), ..sd0.mons[j] }),
                    forall|j: int| m <= j < n ==> side_m(sd).mons[j] == sd0.mons[j],
            {
                let mut mon = sd.take_mon(m);
                mon.drop_linked(src);
                sd.put_mon(m, mon);
            }
            proof {
                assert(side_m(sd).mons =~= target.sides[s as int].mons);
                assert(side_m(sd) == target.sides[s as int]);
            }
            self.put_side(s, sd);
        }
        proof {
            assert(self.model().sides =~= target.sides);
        }
    }
}

/// `|faint|p1a: Nick`: the mon faints (empty, off the field), and the
/// trapping volatiles it held on others end.
#[verifier::opaque]
pub open spec fn faint_spec(t: TrackerM, parts: Seq<Seq<char>>) -> TrackerM {
    match subject_spec(t, field(parts, 1)) {
        None => t,
        Some((s, m)) => {
            let sd = t.sides[s as int];
            let t1 = upd_side(t, s as int, SideM { fainted_this_turn: Some(m), mons: sd.mons.update(m as int, fainted_mon(sd.mons[m as int])), ..sd });
            clear_sourced(t1, (s, m))
        },
    }
}

/// A mon after `|cant|` with `why`.
pub open spec fn cant_mon(mon: MonM, why: Seq<char>) -> MonM {
    if why == "slp"@ {
        MonM { slept: vstd::wrapping::i32_specs::wrapping_add(mon.slept, 1), locked: None, charging: None, ..mon }
    } else if why == "recharge"@ {
        MonM { must_recharge: false, charging: None, ..mon }
    } else {
        MonM { charging: None, ..mon }
    }
}

/// A mon after a `|-status|` line's parts.
pub open spec fn status_line_mon(mon: MonM, parts: Seq<Seq<char>>) -> MonM {
    let st = status_of(field(parts, 2));
    let mon1 = MonM { status: st, slept: 0, rest: parts.contains("[from] move: Rest"@), ..mon };
    if parts.contains("[silent]"@) {
        mon1
    } else {
        match st {
            Status::Tox => MonM { comp_res: Some(0), ..mon1 },
            Status::Brn => MonM { comp_brn: true, ..mon1 },
            Status::Par => MonM { comp_par: true, ..mon1 },
            _ => mon1,
        }
    }
}

/// A mon as it faints.
pub open spec fn fainted_mon(mon: MonM) -> MonM {
    cleared_on_exit(MonM { fainted: true, pixels: 0, ..mon })
}

/// `|cant|p1a: Nick|reason`: the side's action is spent; sleep counts a
/// turn (dropping any lock), a recharge is done, and any charge is lost.
#[verifier::opaque]
pub open spec fn cant_spec(t: TrackerM, parts: Seq<Seq<char>>) -> TrackerM {
    match subject_spec(t, field(parts, 1)) {
        None => t,
        Some((s, m)) => {
            let sd = t.sides[s as int];
            upd_side(t, s as int, SideM { acted_this_turn: true, mons: sd.mons.update(m as int, cant_mon(sd.mons[m as int], field(parts, 2))), ..sd })
        },
    }
}

/// The mon after an HP line's parts.
pub open spec fn hp_line_mon(mon: MonM, parts: Seq<Seq<char>>) -> MonM {
    let mon1 = with_hp_status(mon, field(parts, 2));
    let mon2 = if parts.contains("[from] psn"@) || parts.contains("[from] brn"@) {
        match mon1.comp_res {
            Some(n) => MonM { comp_res: Some(vstd::wrapping::i32_specs::wrapping_add(n, 1)), ..mon1 },
            None => mon1,
        }
    } else {
        mon1
    };
    if parts.contains("[from] confusion"@) { MonM { charging: None, ..mon2 } } else { mon2 }
}

/// `|-damage|` / `|-heal|` / `|-sethp|`: the HP-status field; a poison or
/// burn tick advances the Toxic counter; a confusion self-hit loses a
/// pending charge.
#[verifier::opaque]
pub open spec fn hp_line_spec(t: TrackerM, parts: Seq<Seq<char>>) -> TrackerM {
    match subject_spec(t, field(parts, 1)) {
        None => t,
        Some((s, m)) => upd_mon(t, s as int, m as int, hp_line_mon(t.sides[s as int].mons[m as int], parts)),
    }
}

/// `|-status|p1a: Nick|tok`: the status (its sleep count reset, Rest noted)
/// and, unless silent, the companion it creates.
#[verifier::opaque]
pub open spec fn status_line_spec(t: TrackerM, parts: Seq<Seq<char>>) -> TrackerM {
    match subject_spec(t, field(parts, 1)) {
        None => t,
        Some((s, m)) => upd_mon(t, s as int, m as int, status_line_mon(t.sides[s as int].mons[m as int], parts)),
    }
}

/// `|-curestatus|p1a: Nick|...`: the mon is cured.
#[verifier::opaque]
pub open spec fn curestatus_spec(t: TrackerM, parts: Seq<Seq<char>>) -> TrackerM {
    match subject_spec(t, field(parts, 1)) {
        None => t,
        Some((s, m)) => upd_mon(t, s as int, m as int, cured(t.sides[s as int].mons[m as int])),
    }
}

/// `|-cureteam|p1a: Nick`: every unfainted mon of the side is cured.
#[verifier::opaque]
pub open spec fn cureteam_spec(t: TrackerM, parts: Seq<Seq<char>>) -> TrackerM {
    match subject_spec(t, field(parts, 1)) {
        None => t,
        Some((s, _)) => {
            let sd = t.sides[s as int];
            upd_side(t, s as int, SideM {
                mons: Seq::new(sd.mons.len(), |j: int| if sd.mons[j].fainted { sd.mons[j] } else { cured(sd.mons[j]) }),
                ..sd
            })
        },
    }
}

impl TrackMon {
    fn faint(&mut self)
        ensures
            mon_m(*final(self)) == fainted_mon(mon_m(*old(self))),
    {
        reveal(mon_m);
        self.fainted = true;
        self.pixels = 0;
        self.clear_on_exit();
        proof {
            reveal(mon_m);
        }
    }

    fn cure_unless_fainted(&mut self)
        ensures
            mon_m(*final(self)) == (if mon_m(*old(self)).fainted { mon_m(*old(self)) } else { cured(mon_m(*old(self))) }),
    {
        reveal(mon_m);
        if !self.fainted {
            self.cure();
        }
        proof {
            reveal(mon_m);
        }
    }

    fn cant(&mut self, why: &[char])
        ensures
            mon_m(*final(self)) == cant_mon(mon_m(*old(self)), why@),
    {
        reveal(mon_m);
        if eq_str(why, "slp") {
            self.slept = self.slept.wrapping_add(1);
            self.locked = None;
            self.charging = None;
        } else if eq_str(why, "recharge") {
            self.must_recharge = false;
            self.charging = None;
        } else {
            self.charging = None;
        }
    }

    fn status_line(&mut self, parts: &Vec<Vec<char>>)
        ensures
            mon_m(*final(self)) == status_line_mon(mon_m(*old(self)), views(parts@)),
    {
        reveal(mon_m);
        let silent = any_field_is(parts, "[silent]");
        let st = status_from_token(&field_at(parts, 2));
        self.status = st;
        self.slept = 0;
        self.rest = any_field_is(parts, "[from] move: Rest");
        if !silent {
            match st {
                Status::Tox => {
                    self.comp_res = Some(0);
                },
                Status::Brn => {
                    self.comp_brn = true;
                },
                Status::Par => {
                    self.comp_par = true;
                },
                _ => {},
            }
        }
    }

    fn hp_line(&mut self, parts: &Vec<Vec<char>>)
        ensures
            mon_m(*final(self)) == hp_line_mon(mon_m(*old(self)), views(parts@)),
    {
        reveal(mon_m);
        self.apply_hp_status(&field_at(parts, 2));
        if any_field_is(parts, "[from] psn") || any_field_is(parts, "[from] brn") {
            match self.comp_res {
                Some(n) => {
                    self.comp_res = Some(n.wrapping_add(1));
                },
                None => {},
            }
        }
        if any_field_is(parts, "[from] confusion") {
            self.charging = None;
        }
    }
}

impl ProtocolTracker {
    fn on_faint(&mut self, parts: &Vec<Vec<char>>)
        requires
            tracker_wf(old(self).model()),
        ensures
            tracker_wf(final(self).model()),
            final(self).model() == faint_spec(old(self).model(), views(parts@)),
    {
        reveal(faint_spec);
        let (s, m) = match self.subject(&field_at(parts, 1)) {
            Some(x) => x,
            None => {
                return;
            },
        };
        let (mut sd, mut mon) = self.begin_mon(s, m);
        sd.fainted_this_turn = Some(m);
        mon.faint();
        self.end_mon(s, m, sd, mon);
        proof {
            let t0 = old(self).model();
            let sd0 = t0.sides[s as int];
            let mon2 = fainted_mon(sd0.mons[m as int]);
            assert(mon_m(mon) == mon2);
            lemma_upd_side_twice(t0, s as int, empty_side(), SideM { fainted_this_turn: Some(m), mons: sd0.mons.update(m as int, mon2), ..sd0 });
            assert(side_m(sd).mons.update(m as int, mon_m(mon)) =~= sd0.mons.update(m as int, mon2));
        }
        self.clear_sourced_vols((s, m));
    }

    fn on_cant(&mut self, parts: &Vec<Vec<char>>)
        requires
            tracker_wf(old(self).model()),
        ensures
            tracker_wf(final(self).model()),
            final(self).model() == cant_spec(old(self).model(), views(parts@)),
    {
        reveal(cant_spec);
        let (s, m) = match self.subject(&field_at(parts, 1)) {
            Some(x) => x,
            None => {
                return;
            },
        };
        let (mut sd, mut mon) = self.begin_mon(s, m);
        sd.acted_this_turn = true;
        mon.cant(&field_at(parts, 2));
        let ghost mon2 = mon_m(mon);
        self.end_mon(s, m, sd, mon);
        proof {
            let t0 = old(self).model();
            let sd0 = t0.sides[s as int];
            lemma_upd_side_twice(t0, s as int, empty_side(), SideM { acted_this_turn: true, mons: sd0.mons.update(m as int, mon2), ..sd0 });
            assert(side_m(sd).mons.update(m as int, mon2) =~= sd0.mons.update(m as int, mon2));
        }
    }

    fn on_hp_line(&mut self, parts: &Vec<Vec<char>>)
        requires
            tracker_wf(old(self).model()),
        ensures
            tracker_wf(final(self).model()),
            final(self).model() == hp_line_spec(old(self).model(), views(parts@)),
    {
        reveal(hp_line_spec);
        let (s, m) = match self.subject(&field_at(parts, 1)) {
            Some(x) => x,
            None => {
                return;
            },
        };
        let (sd, mut mon) = self.begin_mon(s, m);
        mon.hp_line(parts);
        let ghost mon3 = mon_m(mon);
        self.end_mon(s, m, sd, mon);
        proof {
            let t0 = old(self).model();
            let sd0 = t0.sides[s as int];
            lemma_upd_side_twice(t0, s as int, empty_side(), SideM { mons: sd0.mons.update(m as int, mon3), ..sd0 });
            assert(side_m(sd).mons.update(m as int, mon3) =~= sd0.mons.update(m as int, mon3));
        }
    }

    fn on_status_line(&mut self, parts: &Vec<Vec<char>>)
        requires
            tracker_wf(old(self).model()),
        ensures
            tracker_wf(final(self).model()),
            final(self).model() == status_line_spec(old(self).model(), views(parts@)),
    {
        reveal(status_line_spec);
        let (s, m) = match self.subject(&field_at(parts, 1)) {
            Some(x) => x,
            None => {
                return;
            },
        };
        let (sd, mut mon) = self.begin_mon(s, m);
        mon.status_line(parts);
        let ghost mon2 = mon_m(mon);
        self.end_mon(s, m, sd, mon);
        proof {
            let t0 = old(self).model();
            let sd0 = t0.sides[s as int];
            lemma_upd_side_twice(t0, s as int, empty_side(), SideM { mons: sd0.mons.update(m as int, mon2), ..sd0 });
            assert(side_m(sd).mons.update(m as int, mon2) =~= sd0.mons.update(m as int, mon2));
        }
    }

    fn on_curestatus(&mut self, parts: &Vec<Vec<char>>)
        requires
            tracker_wf(old(self).model()),
        ensures
            tracker_wf(final(self).model()),
            final(self).model() == curestatus_spec(old(self).model(), views(parts@)),
    {
        reveal(curestatus_spec);
        let (s, m) = match self.subject(&field_at(parts, 1)) {
            Some(x) => x,
            None => {
                return;
            },
        };
        let (sd, mut mon) = self.begin_mon(s, m);
        mon.cure();
        let ghost mon2 = mon_m(mon);
        self.end_mon(s, m, sd, mon);
        proof {
            let t0 = old(self).model();
            let sd0 = t0.sides[s as int];
            lemma_upd_side_twice(t0, s as int, empty_side(), SideM { mons: sd0.mons.update(m as int, mon2), ..sd0 });
            assert(side_m(sd).mons.update(m as int, mon2) =~= sd0.mons.update(m as int, mon2));
        }
    }

    fn on_cureteam(&mut self, parts: &Vec<Vec<char>>)
        requires
            tracker_wf(old(self).model()),
        ensures
            tracker_wf(final(self).model()),
            final(self).model() == cureteam_spec(old(self).model(), views(parts@)),
    {
        reveal(cureteam_spec);
        let (s, _) = match self.subject(&field_at(parts, 1)) {
            Some(x) => x,
            None => {
                return;
            },
        };
        let mut sd = self.take_side(s);
        let ghost sd0 = side_m(sd);
        let n = sd.mons.len();
        for j in 0..n
            invariant
                n == sd.mons@.len(),
                s <= 1,
                sd0 == old(self).model().sides[s as int],
                side_m(sd).mons.len() == sd0.mons.len(),
                side_m(sd).active == sd0.active,
                side_m(sd).conds == sd0.conds,
                side_m(sd).pending_bp == sd0.pending_bp,
                side_m(sd).acted_this_turn == sd0.acted_this_turn,
                side_m(sd).fainted_this_turn == sd0.fainted_this_turn,
                side_m(sd).fainted_last_turn == sd0.fainted_last_turn,
                side_m(sd).side_last_move == sd0.side_last_move,
                forall|k: int| 0 <= k < j ==> side_m(sd).mons[k] == (if sd0.mons[k].fainted { sd0.mons[k] } else { cured(sd0.mons[k]) }),
                forall|k: int| j <= k < n ==> side_m(sd).mons[k] == sd0.mons[k],
        {
            let mut mon = sd.take_mon(j);
            mon.cure_unless_fainted();
            sd.put_mon(j, mon);
        }
        proof {
            assert(side_m(sd).mons =~= Seq::new(sd0.mons.len(), |j: int| if sd0.mons[j].fainted { sd0.mons[j] } else { cured(sd0.mons[j]) }));
        }
        self.put_side(s, sd);
        proof {
            lemma_upd_side_twice(old(self).model(), s as int, empty_side(), side_m(sd));
        }
    }
}


// ------------------------------------------------------- boosts and more

/// The first boost-table slot from `j` on named `name`.
pub open spec fn boost_slot(name: Seq<char>, j: int) -> Option<int>
    decreases 7 - j,
{
    if j < 0 || j >= 7 {
        None
    } else if crate::import::boost_names()[j] == name {
        Some(j)
    } else {
        boost_slot(name, j + 1)
    }
}

proof fn lemma_boost_slot(name: Seq<char>, r: Option<usize>, j: int)
    requires
        0 <= j <= 7,
        forall|k: int| 0 <= k < j ==> crate::import::boost_names()[k] != name,
        match r {
            Some(i) => i < 7 && crate::import::boost_names()[i as int] == name && forall|k: int|
                0 <= k < i ==> crate::import::boost_names()[k] != name,
            None => forall|k: int| 0 <= k < 7 ==> crate::import::boost_names()[k] != name,
        },
        r matches Some(i) ==> j <= i,
    ensures
        boost_slot(name, j) == match r {
            Some(i) => Some(i as int),
            None => None::<int>,
        },
    decreases 7 - j,
{
    if j < 7 {
        if r matches Some(i) && i == j {
        } else {
            lemma_boost_slot(name, r, j + 1);
        }
    }
}

/// `s.parse::<i8>()`.
pub open spec fn parse_i8_spec(s: Seq<char>) -> Option<i8> {
    match parse_i32_spec(s) {
        Some(v) => if -128 <= v <= 127 { Some(v as i8) } else { None },
        None => None,
    }
}

fn parse_i8(s: &[char]) -> (r: Option<i8>)
    ensures
        r == parse_i8_spec(s@),
{
    match parse_i32(s) {
        Some(v) => if -128 <= v && v <= 127 { Some(v as i8) } else { None },
        None => None,
    }
}

pub open spec fn clamp6(v: i8) -> i8 {
    if v < -6 {
        -6i8
    } else if v > 6 {
        6i8
    } else {
        v
    }
}

/// A mon after a boost (`unboost`: a drop) of `d` in slot `i`: the stage
/// moves and stays in -6..=6 (the sum wraps as a byte), and a speed change
/// while paralyzed (attack while burned) removes the Stadium stat-drop
/// companion.
pub open spec fn boosted_mon(mon: MonM, i: int, d0: i8, unboost: bool) -> MonM {
    let d: i8 = if unboost { if d0 == -128 { -128i8 } else { (-d0) as i8 } } else { d0 };
    let b = clamp6(vstd::wrapping::i8_specs::wrapping_add(mon.boosts[i], d));
    let mon1 = MonM { boosts: mon.boosts.update(i, b), ..mon };
    let mon2 = if d != 0 && i == 4 && mon.status == Status::Par { MonM { comp_par: false, ..mon1 } } else { mon1 };
    if d != 0 && i == 0 && mon.status == Status::Brn { MonM { comp_brn: false, ..mon2 } } else { mon2 }
}

/// `|-boost|` / `|-unboost|p1a: Nick|stat|n`.
#[verifier::opaque]
pub open spec fn boost_spec(t: TrackerM, parts: Seq<Seq<char>>, unboost: bool) -> TrackerM {
    match subject_spec(t, field(parts, 1)) {
        None => t,
        Some((s, m)) => match boost_slot(field(parts, 2), 0) {
            None => t,
            Some(i) => {
                let d = match parse_i8_spec(field(parts, 3)) {
                    Some(v) => v,
                    None => 0i8,
                };
                upd_mon(t, s as int, m as int, boosted_mon(t.sides[s as int].mons[m as int], i, d, unboost))
            },
        },
    }
}

/// `|-copyboost|p1a: A|p2a: B`: A takes B's boosts.
#[verifier::opaque]
pub open spec fn copyboost_spec(t: TrackerM, parts: Seq<Seq<char>>) -> TrackerM {
    match (subject_spec(t, field(parts, 1)), subject_spec(t, field(parts, 2))) {
        (Some((ts, tm)), Some((ss, sm))) => {
            let mon = t.sides[ts as int].mons[tm as int];
            upd_mon(t, ts as int, tm as int, MonM { boosts: t.sides[ss as int].mons[sm as int].boosts, ..mon })
        },
        _ => t,
    }
}

/// Haze on one side's active: boosts cleared, stat-drop companions gone.
pub open spec fn hazed_side(sd: SideM) -> SideM {
    match sd.active {
        Some(a) => SideM {
            mons: sd.mons.update(a as int, MonM {
                boosts: seq![0i8, 0i8, 0i8, 0i8, 0i8, 0i8, 0i8],
                comp_par: false,
                comp_brn: false,
                ..sd.mons[a as int]
            }),
            ..sd
        },
        None => sd,
    }
}

/// `|-clearallboost|`.
#[verifier::opaque]
pub open spec fn clearallboost_spec(t: TrackerM) -> TrackerM {
    TrackerM { sides: seq![hazed_side(t.sides[0]), hazed_side(t.sides[1])], ..t }
}

fn step_boost(cur: i8, d: i8) -> (r: i8)
    ensures
        r == clamp6(vstd::wrapping::i8_specs::wrapping_add(cur, d)),
{
    let sum = cur.wrapping_add(d);
    if sum < -6 {
        -6
    } else if sum > 6 {
        6
    } else {
        sum
    }
}

impl TrackMon {
    #[verifier::spinoff_prover]
    fn boost(&mut self, i: usize, d0: i8, unboost: bool)
        requires
            i < 7,
        ensures
            mon_m(*final(self)) == boosted_mon(mon_m(*old(self)), i as int, d0, unboost),
    {
        reveal(mon_m);
        let d: i8 = if unboost { if d0 == -128 { -128i8 } else { -d0 } } else { d0 };
        let b = step_boost(self.boosts[i], d);
        let par = match self.status {
            Status::Par => true,
            _ => false,
        };
        let brn = match self.status {
            Status::Brn => true,
            _ => false,
        };
        self.boosts[i] = b;
        if d != 0 && i == 4 && par {
            self.comp_par = false;
        }
        if d != 0 && i == 0 && brn {
            self.comp_brn = false;
        }
        proof {
            reveal(mon_m);
            assert(mon_m(*self).boosts =~= mon_m(*old(self)).boosts.update(i as int, b));
        }
    }

    fn haze(&mut self)
        ensures
            mon_m(*final(self)) == (MonM {
                boosts: seq![0i8, 0i8, 0i8, 0i8, 0i8, 0i8, 0i8],
                comp_par: false,
                comp_brn: false,
                ..mon_m(*old(self))
            }),
    {
        reveal(mon_m);
        self.boosts = [0i8; 7];
        self.comp_par = false;
        self.comp_brn = false;
        proof {
            reveal(mon_m);
            assert(mon_m(*self).boosts =~= seq![0i8, 0i8, 0i8, 0i8, 0i8, 0i8, 0i8]);
        }
    }

    fn set_boosts(&mut self, b: [i8; 7])
        ensures
            mon_m(*final(self)) == (MonM { boosts: b@, ..mon_m(*old(self)) }),
    {
        reveal(mon_m);
        self.boosts = b;
        proof {
            reveal(mon_m);
        }
    }

    fn boosts_now(&self) -> (b: [i8; 7])
        ensures
            b@ == mon_m(*self).boosts,
    {
        reveal(mon_m);
        self.boosts
    }
}

impl TrackSide {
    fn haze_active(&mut self)
        requires
            side_wf(side_m(*old(self))),
        ensures
            side_m(*final(self)) == hazed_side(side_m(*old(self))),
            side_wf(side_m(*final(self))),
    {
        match self.active {
            Some(a) => {
                let mut mon = self.take_mon(a);
                mon.haze();
                self.put_mon(a, mon);
                proof {
                    assert(side_m(*self).mons =~= hazed_side(side_m(*old(self))).mons);
                }
            },
            None => {},
        }
    }
}

impl ProtocolTracker {
    fn mon_boosts(&self, s: usize, m: usize) -> (b: [i8; 7])
        requires
            s <= 1,
            m < self.model().sides[s as int].mons.len(),
        ensures
            b@ == self.model().sides[s as int].mons[m as int].boosts,
    {
        let sd = self.side_ref(s);
        assert(side_m(*sd).mons[m as int] == mon_m(sd.mons@[m as int]));
        sd.mons[m].boosts_now()
    }

    fn on_boost(&mut self, parts: &Vec<Vec<char>>, unboost: bool)
        requires
            tracker_wf(old(self).model()),
        ensures
            tracker_wf(final(self).model()),
            final(self).model() == boost_spec(old(self).model(), views(parts@), unboost),
    {
        reveal(boost_spec);
        let (s, m) = match self.subject(&field_at(parts, 1)) {
            Some(x) => x,
            None => {
                return;
            },
        };
        let stat = text_of(&field_at(parts, 2));
        let idx = crate::import::boost_index(stat.as_str());
        proof {
            lemma_boost_slot(field(views(parts@), 2), idx, 0);
        }
        let i = match idx {
            Some(i) => i,
            None => {
                return;
            },
        };
        let d = match parse_i8(&field_at(parts, 3)) {
            Some(v) => v,
            None => 0i8,
        };
        let (sd, mut mon) = self.begin_mon(s, m);
        mon.boost(i, d, unboost);
        let ghost mm = mon_m(mon);
        self.end_mon(s, m, sd, mon);
        proof {
            let t0 = old(self).model();
            let sd0 = t0.sides[s as int];
            lemma_upd_side_twice(t0, s as int, empty_side(), SideM { mons: sd0.mons.update(m as int, mm), ..sd0 });
            assert(side_m(sd).mons.update(m as int, mm) =~= sd0.mons.update(m as int, mm));
        }
    }

    fn on_copyboost(&mut self, parts: &Vec<Vec<char>>)
        requires
            tracker_wf(old(self).model()),
        ensures
            tracker_wf(final(self).model()),
            final(self).model() == copyboost_spec(old(self).model(), views(parts@)),
    {
        reveal(copyboost_spec);
        let (ts, tm) = match self.subject(&field_at(parts, 1)) {
            Some(x) => x,
            None => {
                return;
            },
        };
        let (ss, sm) = match self.subject(&field_at(parts, 2)) {
            Some(x) => x,
            None => {
                return;
            },
        };
        let b = self.mon_boosts(ss, sm);
        let (sd, mut mon) = self.begin_mon(ts, tm);
        mon.set_boosts(b);
        let ghost mm = mon_m(mon);
        self.end_mon(ts, tm, sd, mon);
        proof {
            let t0 = old(self).model();
            let sd0 = t0.sides[ts as int];
            lemma_upd_side_twice(t0, ts as int, empty_side(), SideM { mons: sd0.mons.update(tm as int, mm), ..sd0 });
            assert(side_m(sd).mons.update(tm as int, mm) =~= sd0.mons.update(tm as int, mm));
        }
    }

    fn on_clearallboost(&mut self)
        requires
            tracker_wf(old(self).model()),
        ensures
            tracker_wf(final(self).model()),
            final(self).model() == clearallboost_spec(old(self).model()),
    {
        reveal(clearallboost_spec);
        assert(old(self).model().sides[0] == side_m(self.side0));
        assert(old(self).model().sides[1] == side_m(self.side1));
        self.side0.haze_active();
        self.side1.haze_active();
        proof {
            assert(self.model().sides =~= seq![hazed_side(old(self).model().sides[0]), hazed_side(old(self).model().sides[1])]);
        }
    }
}


/// A field without a leading `move: `.
pub open spec fn strip_move(f: Seq<char>) -> Seq<char> {
    if begins_with(f, "move: "@) {
        f.skip(6)
    } else {
        f
    }
}

fn strip_move_exec(f: &[char]) -> (r: Vec<char>)
    ensures
        r@ == strip_move(f@),
{
    match strip_prefix_str(f, "move: ") {
        Some(rest) => {
            proof {
                reveal_strlit("move: ");
            }
            rest
        },
        None => copy_chars(f),
    }
}

/// The binding moves, whose trap ends under the move's own name.
pub open spec fn is_bind_key(k: Seq<char>) -> bool {
    k == "wrap"@ || k == "bind"@ || k == "firespin"@ || k == "clamp"@ || k == "whirlpool"@
}

fn is_bind_key_exec(k: &[char]) -> (r: bool)
    ensures
        r == is_bind_key(k@),
{
    eq_str(k, "wrap") || eq_str(k, "bind") || eq_str(k, "firespin") || eq_str(k, "clamp") || eq_str(k, "whirlpool")
}

/// `|-end|p1a: Nick|effect`: the volatile ends (a binding move ends the
/// partial trap).
#[verifier::opaque]
pub open spec fn end_spec(t: TrackerM, parts: Seq<Seq<char>>) -> TrackerM {
    match subject_spec(t, field(parts, 1)) {
        None => t,
        Some((s, m)) => {
            let k = to_id(strip_move(field(parts, 2)));
            let key = if is_bind_key(k) { "partiallytrapped"@ } else { k };
            let mon = t.sides[s as int].mons[m as int];
            upd_mon(t, s as int, m as int, MonM { vols: vols_without(mon.vols, key), ..mon })
        },
    }
}

/// `|-singleturn|p1a: Nick|move: Protect`: Protect, Detect or Endure was
/// used this turn.
#[verifier::opaque]
pub open spec fn singleturn_spec(t: TrackerM, parts: Seq<Seq<char>>) -> TrackerM {
    match subject_spec(t, field(parts, 1)) {
        None => t,
        Some((s, m)) => {
            let k = to_id(strip_move(field(parts, 2)));
            if k == "protect"@ || k == "endure"@ || k == "detect"@ {
                let mon = t.sides[s as int].mons[m as int];
                upd_mon(t, s as int, m as int, MonM { protected_this_turn: true, ..mon })
            } else {
                t
            }
        },
    }
}

/// The volatile a line starts now.
pub open spec fn vol_now(key: Seq<char>, turn: u16) -> VolM {
    VolM { key, start_turn: turn, move_id: None, source: None, counter: None }
}

/// `|-singlemove|p1a: Nick|Rage` / `Destiny Bond`: the volatile starts,
/// once.
#[verifier::opaque]
pub open spec fn singlemove_spec(t: TrackerM, parts: Seq<Seq<char>>) -> TrackerM {
    match subject_spec(t, field(parts, 1)) {
        None => t,
        Some((s, m)) => {
            let k = to_id(strip_move(field(parts, 2)));
            let mon = t.sides[s as int].mons[m as int];
            if (k == "rage"@ || k == "destinybond"@) && !has_vol(mon.vols, k) {
                upd_mon(t, s as int, m as int, MonM { vols: mon.vols.push(vol_now(k, t.turn)), ..mon })
            } else {
                t
            }
        },
    }
}

/// Some side condition is keyed `key`.
pub open spec fn has_cond(conds: Seq<(Seq<char>, u16)>, key: Seq<char>) -> bool {
    exists|i: int| 0 <= i < conds.len() && (#[trigger] conds[i]).0 == key
}

/// The side conditions without those keyed `key`.
pub open spec fn conds_without(conds: Seq<(Seq<char>, u16)>, key: Seq<char>) -> Seq<(Seq<char>, u16)>
    decreases conds.len(),
{
    if conds.len() == 0 {
        conds
    } else if conds.last().0 == key {
        conds_without(conds.drop_last(), key)
    } else {
        conds_without(conds.drop_last(), key).push(conds.last())
    }
}

/// `|-sidestart|p1: Name|move: Reflect`: the side condition starts, once.
#[verifier::opaque]
pub open spec fn sidestart_spec(t: TrackerM, parts: Seq<Seq<char>>) -> TrackerM {
    match side_subject(field(parts, 1)) {
        None => t,
        Some(s) => {
            let k = to_id(strip_move(field(parts, 2)));
            let sd = t.sides[s as int];
            if has_cond(sd.conds, k) {
                t
            } else {
                upd_side(t, s as int, SideM { conds: sd.conds.push((k, t.turn)), ..sd })
            }
        },
    }
}

/// `|-sideend|p1: Name|move: Reflect`: the side condition ends.
#[verifier::opaque]
pub open spec fn sideend_spec(t: TrackerM, parts: Seq<Seq<char>>) -> TrackerM {
    match side_subject(field(parts, 1)) {
        None => t,
        Some(s) => {
            let k = to_id(strip_move(field(parts, 2)));
            let sd = t.sides[s as int];
            upd_side(t, s as int, SideM { conds: conds_without(sd.conds, k), ..sd })
        },
    }
}

/// `|-weather|Kind`: `none` ends the weather, an `[upkeep]` line counts an
/// upkeep of the current weather, anything else starts it.
#[verifier::opaque]
pub open spec fn weather_spec(t: TrackerM, parts: Seq<Seq<char>>) -> TrackerM {
    let w = field(parts, 1);
    if w == "none"@ {
        TrackerM { weather: None, ..t }
    } else if parts.contains("[upkeep]"@) {
        match t.weather {
            Some((k, u)) => TrackerM { weather: Some((k, vstd::wrapping::u16_specs::wrapping_add(u, 1))), ..t },
            None => t,
        }
    } else {
        TrackerM { weather: Some((to_id(w), 0u16)), ..t }
    }
}

/// `|-prepare|p1a: Nick|Move`: a two-turn move charges.
#[verifier::opaque]
pub open spec fn prepare_spec(dex: TrackerDex, t: TrackerM, parts: Seq<Seq<char>>) -> TrackerM {
    match subject_spec(t, field(parts, 1)) {
        None => t,
        Some((s, m)) => match key_id(dex.moves@, to_id(field(parts, 2)), 0) {
            None => t,
            Some(mid) => {
                let mon = t.sides[s as int].mons[m as int];
                upd_mon(t, s as int, m as int, MonM { charging: Some(mid), ..mon })
            },
        },
    }
}

/// `|-anim|p1a: Nick|...`: a charge released in the same turn.
#[verifier::opaque]
pub open spec fn anim_spec(t: TrackerM, parts: Seq<Seq<char>>) -> TrackerM {
    match subject_spec(t, field(parts, 1)) {
        None => t,
        Some((s, m)) => {
            let mon = t.sides[s as int].mons[m as int];
            upd_mon(t, s as int, m as int, MonM { charging: None, ..mon })
        },
    }
}

/// `|-transform|p1a: A|p2a: B`: A is transformed into B and copies B's
/// boosts.
#[verifier::opaque]
pub open spec fn transform_spec(t: TrackerM, parts: Seq<Seq<char>>) -> TrackerM {
    match (subject_spec(t, field(parts, 1)), subject_spec(t, field(parts, 2))) {
        (Some((s, m)), Some(tgt)) => {
            let mon = t.sides[s as int].mons[m as int];
            upd_mon(t, s as int, m as int, MonM {
                transformed_into: Some(tgt),
                boosts: t.sides[tgt.0 as int].mons[tgt.1 as int].boosts,
                ..mon
            })
        },
        _ => t,
    }
}

/// `|-mustrecharge|p1a: Nick`.
#[verifier::opaque]
pub open spec fn mustrecharge_spec(t: TrackerM, parts: Seq<Seq<char>>) -> TrackerM {
    match subject_spec(t, field(parts, 1)) {
        None => t,
        Some((s, m)) => {
            let mon = t.sides[s as int].mons[m as int];
            upd_mon(t, s as int, m as int, MonM { must_recharge: true, ..mon })
        },
    }
}

/// `|-miss|` / `|-fail|p1a: Nick`: a rollout lock and a Fury Cutter streak
/// end.
#[verifier::opaque]
pub open spec fn miss_spec(dex: TrackerDex, t: TrackerM, parts: Seq<Seq<char>>) -> TrackerM {
    match subject_spec(t, field(parts, 1)) {
        None => t,
        Some((s, m)) => {
            let mon = rollout_unlocked(dex, t.sides[s as int].mons[m as int]);
            upd_mon(t, s as int, m as int, MonM { vols: vols_without(mon.vols, "furycutter"@), ..mon })
        },
    }
}

/// `|-immune|p1a: Target`: the attacker's (the other side's active)
/// rollout lock ends.
#[verifier::opaque]
pub open spec fn immune_spec(dex: TrackerDex, t: TrackerM, parts: Seq<Seq<char>>) -> TrackerM {
    match subject_spec(t, field(parts, 1)) {
        None => t,
        Some((s, _)) => attacker_unlocked(dex, t, s),
    }
}


impl TrackMon {
    fn set_protected(&mut self)
        ensures
            mon_m(*final(self)) == (MonM { protected_this_turn: true, ..mon_m(*old(self)) }),
    {
        reveal(mon_m);
        self.protected_this_turn = true;
    }

    fn set_charging(&mut self, c: Option<usize>)
        ensures
            mon_m(*final(self)) == (MonM { charging: c, ..mon_m(*old(self)) }),
    {
        reveal(mon_m);
        self.charging = c;
    }

    fn set_must_recharge(&mut self)
        ensures
            mon_m(*final(self)) == (MonM { must_recharge: true, ..mon_m(*old(self)) }),
    {
        reveal(mon_m);
        self.must_recharge = true;
    }

    fn transform_into(&mut self, tgt: (usize, usize), b: [i8; 7])
        ensures
            mon_m(*final(self)) == (MonM { transformed_into: Some(tgt), boosts: b@, ..mon_m(*old(self)) }),
    {
        reveal(mon_m);
        self.transformed_into = Some(tgt);
        self.boosts = b;
    }

    fn push_vol(&mut self, v: TVol)
        ensures
            mon_m(*final(self)) == (MonM { vols: mon_m(*old(self)).vols.push(vol_m(v)), ..mon_m(*old(self)) }),
    {
        reveal(mon_m);
        let ghost v0 = vol_m(v);
        self.vols.push(v);
        proof {
            reveal(mon_m);
            assert(mon_m(*self).vols =~= mon_m(*old(self)).vols.push(v0));
        }
    }
}

fn vol_started(key: &[char], turn: u16) -> (v: TVol)
    ensures
        vol_m(v) == vol_now(key@, turn),
{
    TVol { key: text_of(key), start_turn: turn, move_id: None, source: None, counter: None }
}

impl TrackSide {
    fn has_cond(&self, key: &[char]) -> (r: bool)
        ensures
            r == has_cond(side_m(*self).conds, key@),
    {
        let ghost cm = side_m(*self).conds;
        for i in 0..self.conds.len()
            invariant
                cm == side_m(*self).conds,
                cm.len() == self.conds@.len(),
                forall|j: int| 0 <= j < i ==> cm[j].0 != key@,
        {
            assert(cm[i as int].0 == self.conds@[i as int].0@);
            let k = chars_of(self.conds[i].0.as_str());
            if eq_chars(&k, key) {
                return true;
            }
        }
        false
    }

    fn drop_conds(&mut self, key: &[char])
        ensures
            side_m(*final(self)) == (SideM { conds: conds_without(side_m(*old(self)).conds, key@), ..side_m(*old(self)) }),
    {
        let ghost cm = side_m(*self).conds;
        let mut kept: Vec<(String, u16)> = Vec::new();
        for i in 0..self.conds.len()
            invariant
                cm == side_m(*self).conds,
                cm.len() == self.conds@.len(),
                *self == *old(self),
                kept@.map_values(|c: (String, u16)| (c.0@, c.1)) == conds_without(cm.take(i as int), key@),
        {
            assert(cm.take(i + 1).drop_last() =~= cm.take(i as int));
            assert(cm.take(i + 1).last() == (self.conds@[i as int].0@, self.conds@[i as int].1));
            let k = chars_of(self.conds[i].0.as_str());
            if !eq_chars(&k, key) {
                let ghost before = kept@.map_values(|c: (String, u16)| (c.0@, c.1));
                kept.push((text_of(&k), self.conds[i].1));
                assert(kept@.map_values(|c: (String, u16)| (c.0@, c.1)) =~= before.push(cm[i as int]));
            }
        }
        assert(cm.take(cm.len() as int) =~= cm);
        self.conds = kept;
        proof {
            assert(side_m(*self).conds =~= conds_without(cm, key@));
        }
    }
}

impl ProtocolTracker {
    fn on_end(&mut self, parts: &Vec<Vec<char>>)
        requires
            tracker_wf(old(self).model()),
        ensures
            tracker_wf(final(self).model()),
            final(self).model() == end_spec(old(self).model(), views(parts@)),
    {
        reveal(end_spec);
        let (s, m) = match self.subject(&field_at(parts, 1)) {
            Some(x) => x,
            None => {
                return;
            },
        };
        let k = toid_chars(&strip_move_exec(&field_at(parts, 2)));
        let key = if is_bind_key_exec(&k) {
            proof {
                reveal_strlit("partiallytrapped");
            }
            chars_of("partiallytrapped")
        } else {
            k
        };
        let ghost t0 = self.model();
        let (sd, mut mon) = self.begin_mon(s, m);
        mon.drop_vols(&key);
        self.finish_mon(s, m, sd, mon, Ghost(t0));
    }

    fn on_singleturn(&mut self, parts: &Vec<Vec<char>>)
        requires
            tracker_wf(old(self).model()),
        ensures
            tracker_wf(final(self).model()),
            final(self).model() == singleturn_spec(old(self).model(), views(parts@)),
    {
        reveal(singleturn_spec);
        let (s, m) = match self.subject(&field_at(parts, 1)) {
            Some(x) => x,
            None => {
                return;
            },
        };
        let k = toid_chars(&strip_move_exec(&field_at(parts, 2)));
        if eq_str(&k, "protect") || eq_str(&k, "endure") || eq_str(&k, "detect") {
            let ghost t0 = self.model();
            let (sd, mut mon) = self.begin_mon(s, m);
            mon.set_protected();
            self.finish_mon(s, m, sd, mon, Ghost(t0));
        }
    }

    #[verifier::spinoff_prover]
    #[verifier::rlimit(30)]
    fn on_singlemove(&mut self, parts: &Vec<Vec<char>>)
        requires
            tracker_wf(old(self).model()),
        ensures
            tracker_wf(final(self).model()),
            final(self).model() == singlemove_spec(old(self).model(), views(parts@)),
    {
        reveal(singlemove_spec);
        let (s, m) = match self.subject(&field_at(parts, 1)) {
            Some(x) => x,
            None => {
                return;
            },
        };
        let k = toid_chars(&strip_move_exec(&field_at(parts, 2)));
        if eq_str(&k, "rage") || eq_str(&k, "destinybond") {
            let turn = self.turn;
            let ghost t0 = self.model();
            let (sd, mut mon) = self.begin_mon(s, m);
            if !mon.has_vol(&k) {
                mon.push_vol(vol_started(&k, turn));
                self.finish_mon(s, m, sd, mon, Ghost(t0));
            } else {
                let ghost mm = mon_m(mon);
                self.finish_mon(s, m, sd, mon, Ghost(t0));
                proof {
                    assert(t0.sides[s as int].mons.update(m as int, mm) =~= t0.sides[s as int].mons);
                    assert(upd_mon(t0, s as int, m as int, mm).sides =~= t0.sides);
                }
            }
        }
    }

    fn on_sidestart(&mut self, parts: &Vec<Vec<char>>)
        requires
            tracker_wf(old(self).model()),
        ensures
            tracker_wf(final(self).model()),
            final(self).model() == sidestart_spec(old(self).model(), views(parts@)),
    {
        reveal(sidestart_spec);
        let s = match side_subject_exec(&field_at(parts, 1)) {
            Some(x) => x,
            None => {
                return;
            },
        };
        assert(s <= 1) by {
            let b = vstd::utf8::encode_utf8(field(views(parts@), 1));
            assert(b[1] == 0x31u8 || b[1] == 0x32u8);
        }
        let k = toid_chars(&strip_move_exec(&field_at(parts, 2)));
        let turn = self.turn;
        let mut sd = self.take_side(s);
        if !sd.has_cond(&k) {
            let ghost c0 = side_m(sd).conds;
            sd.conds.push((text_of(&k), turn));
            proof {
                assert(side_m(sd).conds =~= c0.push((k@, turn)));
            }
        }
        self.put_side(s, sd);
        proof {
            lemma_upd_side_twice(old(self).model(), s as int, empty_side(), side_m(sd));
            if has_cond(old(self).model().sides[s as int].conds, k@) {
                assert(upd_side(old(self).model(), s as int, side_m(sd)).sides =~= old(self).model().sides);
            }
        }
    }

    fn on_sideend(&mut self, parts: &Vec<Vec<char>>)
        requires
            tracker_wf(old(self).model()),
        ensures
            tracker_wf(final(self).model()),
            final(self).model() == sideend_spec(old(self).model(), views(parts@)),
    {
        reveal(sideend_spec);
        let s = match side_subject_exec(&field_at(parts, 1)) {
            Some(x) => x,
            None => {
                return;
            },
        };
        assert(s <= 1) by {
            let b = vstd::utf8::encode_utf8(field(views(parts@), 1));
            assert(b[1] == 0x31u8 || b[1] == 0x32u8);
        }
        let k = toid_chars(&strip_move_exec(&field_at(parts, 2)));
        let mut sd = self.take_side(s);
        sd.drop_conds(&k);
        self.put_side(s, sd);
        proof {
            lemma_upd_side_twice(old(self).model(), s as int, empty_side(), side_m(sd));
        }
    }

    fn on_weather(&mut self, parts: &Vec<Vec<char>>)
        requires
            tracker_wf(old(self).model()),
        ensures
            tracker_wf(final(self).model()),
            final(self).model() == weather_spec(old(self).model(), views(parts@)),
    {
        reveal(weather_spec);
        let w = field_at(parts, 1);
        if eq_str(&w, "none") {
            self.weather = None;
        } else if any_field_is(parts, "[upkeep]") {
            match &mut self.weather {
                Some(x) => {
                    x.1 = x.1.wrapping_add(1);
                },
                None => {},
            }
        } else {
            self.weather = Some((text_of(&toid_chars(&w)), 0u16));
        }
    }

    fn on_prepare(&mut self, dex: &TrackerDex, parts: &Vec<Vec<char>>)
        requires
            tracker_wf(old(self).model()),
        ensures
            tracker_wf(final(self).model()),
            final(self).model() == prepare_spec(*dex, old(self).model(), views(parts@)),
    {
        reveal(prepare_spec);
        let (s, m) = match self.subject(&field_at(parts, 1)) {
            Some(x) => x,
            None => {
                return;
            },
        };
        match find_key(&dex.moves, &toid_chars(&field_at(parts, 2))) {
            Some(mid) => {
                let ghost t0 = self.model();
                let (sd, mut mon) = self.begin_mon(s, m);
                mon.set_charging(Some(mid));
                self.finish_mon(s, m, sd, mon, Ghost(t0));
            },
            None => {},
        }
    }

    fn on_anim(&mut self, parts: &Vec<Vec<char>>)
        requires
            tracker_wf(old(self).model()),
        ensures
            tracker_wf(final(self).model()),
            final(self).model() == anim_spec(old(self).model(), views(parts@)),
    {
        reveal(anim_spec);
        let (s, m) = match self.subject(&field_at(parts, 1)) {
            Some(x) => x,
            None => {
                return;
            },
        };
        let ghost t0 = self.model();
        let (sd, mut mon) = self.begin_mon(s, m);
        mon.set_charging(None);
        self.finish_mon(s, m, sd, mon, Ghost(t0));
    }

    fn on_transform(&mut self, parts: &Vec<Vec<char>>)
        requires
            tracker_wf(old(self).model()),
        ensures
            tracker_wf(final(self).model()),
            final(self).model() == transform_spec(old(self).model(), views(parts@)),
    {
        reveal(transform_spec);
        let (s, m) = match self.subject(&field_at(parts, 1)) {
            Some(x) => x,
            None => {
                return;
            },
        };
        let tgt = match self.subject(&field_at(parts, 2)) {
            Some(x) => x,
            None => {
                return;
            },
        };
        let b = self.mon_boosts(tgt.0, tgt.1);
        let ghost t0 = self.model();
        let (sd, mut mon) = self.begin_mon(s, m);
        mon.transform_into(tgt, b);
        self.finish_mon(s, m, sd, mon, Ghost(t0));
    }

    fn on_mustrecharge(&mut self, parts: &Vec<Vec<char>>)
        requires
            tracker_wf(old(self).model()),
        ensures
            tracker_wf(final(self).model()),
            final(self).model() == mustrecharge_spec(old(self).model(), views(parts@)),
    {
        reveal(mustrecharge_spec);
        let (s, m) = match self.subject(&field_at(parts, 1)) {
            Some(x) => x,
            None => {
                return;
            },
        };
        let ghost t0 = self.model();
        let (sd, mut mon) = self.begin_mon(s, m);
        mon.set_must_recharge();
        self.finish_mon(s, m, sd, mon, Ghost(t0));
    }

    fn on_miss(&mut self, dex: &TrackerDex, parts: &Vec<Vec<char>>)
        requires
            tracker_wf(old(self).model()),
        ensures
            tracker_wf(final(self).model()),
            final(self).model() == miss_spec(*dex, old(self).model(), views(parts@)),
    {
        reveal(miss_spec);
        let (s, m) = match self.subject(&field_at(parts, 1)) {
            Some(x) => x,
            None => {
                return;
            },
        };
        let ghost t0 = self.model();
        let (sd, mut mon) = self.begin_mon(s, m);
        mon.unlock_rollout(dex);
        let fc = chars_of("furycutter");
        proof {
            reveal_strlit("furycutter");
        }
        mon.drop_vols(&fc);
        self.finish_mon(s, m, sd, mon, Ghost(t0));
    }

    fn on_immune(&mut self, dex: &TrackerDex, parts: &Vec<Vec<char>>)
        requires
            tracker_wf(old(self).model()),
        ensures
            tracker_wf(final(self).model()),
            final(self).model() == immune_spec(*dex, old(self).model(), views(parts@)),
    {
        reveal(immune_spec);
        let (s, _) = match self.subject(&field_at(parts, 1)) {
            Some(x) => x,
            None => {
                return;
            },
        };
        self.unlock_attacker(dex, s);
    }
}


// ------------------------------------------------------------------ moves

/// The first PP mark of move `mid`, from `i` on.
pub open spec fn first_use(uses: Seq<(usize, i32)>, mid: usize, i: int) -> Option<int>
    decreases uses.len() - i,
{
    if i < 0 || i >= uses.len() {
        None
    } else if uses[i].0 == mid {
        Some(i)
    } else {
        first_use(uses, mid, i + 1)
    }
}

proof fn lemma_first_use(uses: Seq<(usize, i32)>, mid: usize, i: int)
    requires
        0 <= i,
    ensures
        first_use(uses, mid, i) matches Some(k) ==> i <= k < uses.len() && uses[k].0 == mid,
    decreases uses.len() - i,
{
    if i < uses.len() && uses[i].0 != mid {
        lemma_first_use(uses, mid, i + 1);
    }
}

/// The PP marks after one more use of `mid`.
pub open spec fn deducted(uses: Seq<(usize, i32)>, mid: usize) -> Seq<(usize, i32)> {
    match first_use(uses, mid, 0) {
        Some(i) => uses.update(i, (mid, vstd::wrapping::i32_specs::wrapping_add(uses[i].1, 1))),
        None => uses.push((mid, 1i32)),
    }
}

/// The first volatile keyed `key`, from `i` on.
pub open spec fn first_vol(vols: Seq<VolM>, key: Seq<char>, i: int) -> Option<int>
    decreases vols.len() - i,
{
    if i < 0 || i >= vols.len() {
        None
    } else if vols[i].key == key {
        Some(i)
    } else {
        first_vol(vols, key, i + 1)
    }
}

proof fn lemma_first_vol(vols: Seq<VolM>, key: Seq<char>, i: int)
    requires
        0 <= i,
    ensures
        first_vol(vols, key, i) matches Some(k) ==> i <= k < vols.len() && vols[k].key == key,
    decreases vols.len() - i,
{
    if i < vols.len() && vols[i].key != key {
        lemma_first_vol(vols, key, i + 1);
    }
}

/// Fury Cutter's streak after another use: the counter (2 when it had
/// none) goes up, or the streak starts at 1.
pub open spec fn fury_bumped(vols: Seq<VolM>, turn: u16) -> Seq<VolM> {
    match first_vol(vols, "furycutter"@, 0) {
        Some(i) => vols.update(i, VolM {
            counter: Some(match vols[i].counter {
                Some(c) => vstd::wrapping::i64_specs::wrapping_add(c, 1),
                None => 2i64,
            }),
            ..vols[i]
        }),
        None => vols.push(VolM { key: "furycutter"@, start_turn: turn, move_id: None, source: None, counter: Some(1i64) }),
    }
}

/// The single-move volatiles that end at the user's next move: Destiny
/// Bond always, Rage and Fury Cutter unless the move is the same.
pub open spec fn expired_on_move(vols: Seq<VolM>, key: Seq<char>) -> Seq<VolM> {
    let v1 = vols_without(vols, "destinybond"@);
    let v2 = if key != "rage"@ { vols_without(v1, "rage"@) } else { v1 };
    if key != "furycutter"@ { vols_without(v2, "furycutter"@) } else { v2 }
}

/// The locking moves: Thrash, Petal Dance, Outrage and Rollout.
pub open spec fn is_lock_key(key: Seq<char>) -> bool {
    key == "thrash"@ || key == "petaldance"@ || key == "outrage"@ || key == "rollout"@
}

/// How many uses a lock runs: Rollout up to 5, the others 3.
pub open spec fn lock_cap(key: Seq<char>) -> i32 {
    if key == "rollout"@ { 5i32 } else { 3i32 }
}

/// A mon's own use of move `mid` (keyed `key`): the release of its charge
/// costs nothing; a lock's continuation counts toward its cap and costs
/// nothing; otherwise a PP mark, a new lock for a locking move, and the
/// volatile that Defense Curl, Minimize or Fury Cutter implies.
pub open spec fn used_mon(mon: MonM, mid: usize, key: Seq<char>, turn: u16) -> MonM {
    if mon.charging == Some(mid) {
        MonM { charging: None, ..mon }
    } else {
        let m1 = MonM { charging: None, ..mon };
        let cont = match m1.locked {
            Some((lm, _)) => lm == mid,
            None => false,
        };
        if cont {
            let u2 = vstd::wrapping::i32_specs::wrapping_add(m1.locked.unwrap().1, 1);
            MonM { locked: if u2 >= lock_cap(key) { None } else { Some((mid, u2)) }, ..m1 }
        } else {
            fresh_use(m1, mid, key, turn)
        }
    }
}

/// A use that neither releases a charge nor continues a lock. A move used
/// while Transformed is not one of the mon's own set, so it gets no PP
/// mark.
pub open spec fn fresh_use(m1: MonM, mid: usize, key: Seq<char>, turn: u16) -> MonM {
    let m2 = MonM {
        locked: if is_lock_key(key) { Some((mid, 1i32)) } else { None },
        uses: if m1.transformed_into is Some { m1.uses } else { deducted(m1.uses, mid) },
        ..m1
    };
    if key == "defensecurl"@ || key == "minimize"@ {
        if has_vol(m2.vols, key) { m2 } else { MonM { vols: m2.vols.push(vol_now(key, turn)), ..m2 } }
    } else if key == "furycutter"@ {
        MonM { vols: fury_bumped(m2.vols, turn), ..m2 }
    } else {
        m2
    }
}

/// `|move|p1a: Nick|Move|...`: the side's action is spent; for a move the
/// dex knows, the side's and the mon's last move, Baton Pass pending, the
/// single-move volatiles expired, and, unless the move was called by
/// another (`[from]` a different move) or is Struggle or a recharge, the
/// use itself.
#[verifier::opaque]
pub open spec fn move_spec(dex: TrackerDex, t: TrackerM, parts: Seq<Seq<char>>) -> TrackerM {
    match subject_spec(t, field(parts, 1)) {
        None => t,
        Some((s, m)) => {
            let sd = t.sides[s as int];
            match key_id(dex.moves@, to_id(field(parts, 2)), 0) {
                None => upd_side(t, s as int, SideM { acted_this_turn: true, ..sd }),
                Some(mid) => {
                    let key = move_key(dex, mid);
                    let called = match first_stripped(parts, "[from] "@, 0) {
                        Some(n) => to_id(strip_move(n)) != key,
                        None => false,
                    };
                    let mon0 = sd.mons[m as int];
                    let mon1 = MonM { last_move: Some(mid), vols: expired_on_move(mon0.vols, key), ..mon0 };
                    let mon2 = if called || key == "struggle"@ || key == "recharge"@ {
                        mon1
                    } else {
                        used_mon(mon1, mid, key, t.turn)
                    };
                    upd_side(t, s as int, SideM {
                        acted_this_turn: true,
                        side_last_move: Some(mid),
                        pending_bp: if key == "batonpass"@ { true } else { sd.pending_bp },
                        mons: sd.mons.update(m as int, mon2),
                        ..sd
                    })
                },
            }
        },
    }
}

impl TrackMon {
    fn deduct(&mut self, mid: usize)
        ensures
            mon_m(*final(self)) == (MonM { uses: deducted(mon_m(*old(self)).uses, mid), ..mon_m(*old(self)) }),
    {
        reveal(mon_m);
        let ghost u0 = self.uses@;
        let mut i: usize = self.uses.len();
        let mut found: Option<usize> = None;
        while i > 0
            invariant
                i <= self.uses@.len(),
                u0 == self.uses@,
                match found {
                    Some(f) => first_use(u0, mid, i as int) == Some(f as int),
                    None => first_use(u0, mid, i as int) is None,
                },
            decreases i,
        {
            i = i - 1;
            if self.uses[i].0 == mid {
                found = Some(i);
            }
        }
        proof {
            lemma_first_use(u0, mid, 0);
        }
        match found {
            Some(k) => {
                let n = self.uses[k].1;
                self.uses.set(k, (mid, n.wrapping_add(1)));
            },
            None => {
                self.uses.push((mid, 1i32));
            },
        }
        proof {
            reveal(mon_m);
            assert(mon_m(*self).uses =~= deducted(u0, mid));
        }
    }

    fn bump_fury(&mut self, turn: u16)
        ensures
            mon_m(*final(self)) == (MonM { vols: fury_bumped(mon_m(*old(self)).vols, turn), ..mon_m(*old(self)) }),
    {
        reveal(mon_m);
        let ghost vm = vols_m(self.vols@);
        proof {
            reveal_strlit("furycutter");
        }
        let mut i: usize = self.vols.len();
        let mut found: Option<usize> = None;
        while i > 0
            invariant
                i <= self.vols@.len(),
                vm == vols_m(self.vols@),
                match found {
                    Some(f) => first_vol(vm, "furycutter"@, i as int) == Some(f as int),
                    None => first_vol(vm, "furycutter"@, i as int) is None,
                },
            decreases i,
        {
            i = i - 1;
            assert(vm[i as int] == vol_m(self.vols@[i as int]));
            let k = chars_of(self.vols[i].key.as_str());
            if eq_str(&k, "furycutter") {
                found = Some(i);
            }
        }
        proof {
            lemma_first_vol(vm, "furycutter"@, 0);
        }
        match found {
            Some(k) => {
                let c = match self.vols[k].counter {
                    Some(c) => c.wrapping_add(1),
                    None => 2i64,
                };
                let v = copy_vol(&self.vols[k]);
                let nv = TVol { counter: Some(c), ..v };
                self.vols.set(k, nv);
                proof {
                    assert(vols_m(self.vols@) =~= fury_bumped(vm, turn));
                }
            },
            None => {
                let fc = chars_of("furycutter");
                let nv = TVol { key: text_of(&fc), start_turn: turn, move_id: None, source: None, counter: Some(1i64) };
                self.vols.push(nv);
                proof {
                    assert(vols_m(self.vols@) =~= fury_bumped(vm, turn));
                }
            },
        }
        proof {
            reveal(mon_m);
        }
    }

    fn expire_on_move(&mut self, key: &[char])
        ensures
            mon_m(*final(self)) == (MonM { vols: expired_on_move(mon_m(*old(self)).vols, key@), ..mon_m(*old(self)) }),
    {
        proof {
            reveal_strlit("destinybond");
            reveal_strlit("rage");
            reveal_strlit("furycutter");
        }
        self.drop_vols(&chars_of("destinybond"));
        if !eq_str(key, "rage") {
            self.drop_vols(&chars_of("rage"));
        }
        if !eq_str(key, "furycutter") {
            self.drop_vols(&chars_of("furycutter"));
        }
    }

    fn set_last_move(&mut self, mid: usize)
        ensures
            mon_m(*final(self)) == (MonM { last_move: Some(mid), ..mon_m(*old(self)) }),
    {
        reveal(mon_m);
        self.last_move = Some(mid);
    }

    fn fresh_use(&mut self, mid: usize, key: &[char], turn: u16)
        ensures
            mon_m(*final(self)) == fresh_use(mon_m(*old(self)), mid, key@, turn),
    {
        self.mark_use(mid);
        let lock = eq_str(key, "thrash") || eq_str(key, "petaldance") || eq_str(key, "outrage") || eq_str(key, "rollout");
        self.set_locked(if lock { Some((mid, 1i32)) } else { None });
        if eq_str(key, "defensecurl") || eq_str(key, "minimize") {
            if !self.has_vol(key) {
                self.push_vol(vol_started(key, turn));
            }
        } else if eq_str(key, "furycutter") {
            self.bump_fury(turn);
        }
    }

    fn mark_use(&mut self, mid: usize)
        ensures
            mon_m(*final(self)) == (MonM {
                uses: if mon_m(*old(self)).transformed_into is Some {
                    mon_m(*old(self)).uses
                } else {
                    deducted(mon_m(*old(self)).uses, mid)
                },
                ..mon_m(*old(self))
            }),
    {
        if !self.is_transformed() {
            self.deduct(mid);
        }
    }

    fn is_transformed(&self) -> (r: bool)
        ensures
            r == mon_m(*self).transformed_into is Some,
    {
        reveal(mon_m);
        self.transformed_into.is_some()
    }

    fn set_locked(&mut self, l: Option<(usize, i32)>)
        ensures
            mon_m(*final(self)) == (MonM { locked: l, ..mon_m(*old(self)) }),
    {
        reveal(mon_m);
        self.locked = l;
    }

    fn used(&mut self, mid: usize, key: &[char], turn: u16)
        ensures
            mon_m(*final(self)) == used_mon(mon_m(*old(self)), mid, key@, turn),
    {
        let ghost m0 = mon_m(*self);
        let releases = self.charging_is(mid);
        self.set_charging(None);
        if releases {
            return;
        }
        match self.locked_now() {
            Some((lm, u)) => {
                if lm == mid {
                    let cap: i32 = if eq_str(key, "rollout") { 5 } else { 3 };
                    let u2 = u.wrapping_add(1);
                    self.set_locked(if u2 >= cap { None } else { Some((mid, u2)) });
                    return;
                }
            },
            None => {},
        }
        self.fresh_use(mid, key, turn);
    }

    fn charging_is(&self, mid: usize) -> (r: bool)
        ensures
            r == (mon_m(*self).charging == Some(mid)),
    {
        reveal(mon_m);
        match self.charging {
            Some(c) => c == mid,
            None => false,
        }
    }

    fn locked_now(&self) -> (r: Option<(usize, i32)>)
        ensures
            r == mon_m(*self).locked,
    {
        reveal(mon_m);
        self.locked
    }
}

impl ProtocolTracker {
    #[verifier::rlimit(40)]
    fn on_move(&mut self, dex: &TrackerDex, parts: &Vec<Vec<char>>)
        requires
            tracker_wf(old(self).model()),
        ensures
            tracker_wf(final(self).model()),
            final(self).model() == move_spec(*dex, old(self).model(), views(parts@)),
    {
        reveal(move_spec);
        let (s, m) = match self.subject(&field_at(parts, 1)) {
            Some(x) => x,
            None => {
                return;
            },
        };
        let ghost t0 = self.model();
        let turn = self.turn;
        let (mut sd, mut mon) = self.begin_mon(s, m);
        sd.acted_this_turn = true;
        let mid = match find_key(&dex.moves, &toid_chars(&field_at(parts, 2))) {
            Some(x) => x,
            None => {
                self.end_mon(s, m, sd, mon);
                proof {
                    let sd0 = t0.sides[s as int];
                    lemma_upd_side_twice(t0, s as int, empty_side(), SideM { acted_this_turn: true, ..sd0 });
                    assert(side_m(sd).mons.update(m as int, sd0.mons[m as int]) =~= sd0.mons);
                }
                return;
            },
        };
        let key = chars_of(dex.moves[mid].as_str());
        assert(key@ == move_key(*dex, mid));
        let called = match find_stripped(parts, "[from] ") {
            Some(n) => !eq_chars(&toid_chars(&strip_move_exec(&n)), &key),
            None => false,
        };
        proof {
            reveal_strlit("[from] ");
        }
        sd.side_last_move = Some(mid);
        if eq_str(&key, "batonpass") {
            sd.pending_bp = true;
        }
        mon.set_last_move(mid);
        mon.expire_on_move(&key);
        if !(called || eq_str(&key, "struggle") || eq_str(&key, "recharge")) {
            mon.used(mid, &key, turn);
        }
        let ghost mm = mon_m(mon);
        let ghost sdm = side_m(sd);
        self.end_mon(s, m, sd, mon);
        proof {
            let sd0 = t0.sides[s as int];
            lemma_upd_side_twice(t0, s as int, empty_side(), SideM { mons: sdm.mons.update(m as int, mm), ..sdm });
            assert(sdm.mons.update(m as int, mm) =~= sd0.mons.update(m as int, mm));
        }
    }
}


// ------------------------------------------------------ starts, activations

/// The first runtime condition keyed `key`, from `i` on.
pub open spec fn cond_slot(conds: Seq<(String, bool)>, key: Seq<char>, i: int) -> Option<int>
    decreases conds.len() - i,
{
    if i < 0 || i >= conds.len() {
        None
    } else if conds[i].0@ == key {
        Some(i)
    } else {
        cond_slot(conds, key, i + 1)
    }
}

proof fn lemma_cond_slot(conds: Seq<(String, bool)>, key: Seq<char>, i: int)
    requires
        0 <= i,
    ensures
        cond_slot(conds, key, i) matches Some(k) ==> i <= k < conds.len() && conds[k].0@ == key,
    decreases conds.len() - i,
{
    if i < conds.len() && conds[i].0@ != key {
        lemma_cond_slot(conds, key, i + 1);
    }
}

fn find_cond(conds: &Vec<(String, bool)>, key: &[char]) -> (r: Option<usize>)
    ensures
        match r {
            Some(k) => cond_slot(conds@, key@, 0) == Some(k as int) && k < conds@.len(),
            None => cond_slot(conds@, key@, 0) is None,
        },
{
    let mut i: usize = conds.len();
    let mut found: Option<usize> = None;
    while i > 0
        invariant
            i <= conds@.len(),
            match found {
                Some(f) => cond_slot(conds@, key@, i as int) == Some(f as int),
                None => cond_slot(conds@, key@, i as int) is None,
            },
        decreases i,
    {
        i = i - 1;
        let c = chars_of(conds[i].0.as_str());
        if eq_chars(&c, key) {
            found = Some(i);
        }
    }
    proof {
        lemma_cond_slot(conds@, key@, 0);
    }
    found
}

/// The move that field `i` names, when there is such a field.
pub open spec fn move_at(dex: TrackerDex, parts: Seq<Seq<char>>, i: int) -> Option<usize> {
    if 0 <= i < parts.len() {
        key_id(dex.moves@, to_id(parts[i]), 0)
    } else {
        None
    }
}

fn move_at_exec(dex: &TrackerDex, parts: &Vec<Vec<char>>, i: usize) -> (r: Option<usize>)
    ensures
        r == move_at(*dex, views(parts@), i as int),
        r matches Some(x) ==> x < dex.moves@.len(),
{
    if i < parts.len() {
        assert(views(parts@)[i as int] == parts@[i as int]@);
        find_key(&dex.moves, &toid_chars(&parts[i]))
    } else {
        None
    }
}

/// Perish Song's count set to `n` (the volatile starts when absent).
pub open spec fn perish_set(vols: Seq<VolM>, n: i64, turn: u16) -> Seq<VolM> {
    match first_vol(vols, "perishsong"@, 0) {
        Some(i) => vols.update(i, VolM { counter: Some(n), ..vols[i] }),
        None => vols.push(VolM { key: "perishsong"@, start_turn: turn, move_id: None, source: None, counter: Some(n) }),
    }
}

/// The other side's active, as a volatile's source.
pub open spec fn other_active(t: TrackerM, s: usize) -> Option<(usize, usize)> {
    match t.sides[1 - s].active {
        Some(a) => Some(((1 - s) as usize, a)),
        None => None,
    }
}

/// `|-start|p1a: Nick|effect|...`: `perishN` sets the Perish count;
/// otherwise confusion ends a thrash lock, and a runtime condition the dex
/// knows starts once, sourced to the other side's active, with its move
/// for Encore (the last move) and Disable (the named move, else the last).
#[verifier::opaque]
pub open spec fn start_spec(dex: TrackerDex, t: TrackerM, parts: Seq<Seq<char>>) -> TrackerM {
    match subject_spec(t, field(parts, 1)) {
        None => t,
        Some((s, m)) => {
            let what = field(parts, 2);
            let mon = t.sides[s as int].mons[m as int];
            let perish = if begins_with(what, "perish"@) { parse_i64_spec(what.skip(6)) } else { None };
            match perish {
                Some(n) => upd_mon(t, s as int, m as int, MonM { vols: perish_set(mon.vols, n, t.turn), ..mon }),
                None => {
                    let key = to_id(strip_move(what));
                    let mon1 = if key == "confusion"@ { MonM { locked: None, ..mon } } else { mon };
                    if cond_slot(dex.conds@, key, 0) is None || has_vol(mon1.vols, key) {
                        upd_mon(t, s as int, m as int, mon1)
                    } else {
                        let move_id = if key == "encore"@ {
                            mon1.last_move
                        } else if key == "disable"@ {
                            match move_at(dex, parts, 3) {
                                Some(x) => Some(x),
                                None => mon1.last_move,
                            }
                        } else {
                            None
                        };
                        let v = VolM { key, start_turn: t.turn, move_id, source: other_active(t, s), counter: None };
                        upd_mon(t, s as int, m as int, MonM { vols: mon1.vols.push(v), ..mon1 })
                    }
                },
            }
        },
    }
}

/// Mystery Berry's restore of `mid`: its PP mark drops by 5, not below 0.
pub open spec fn berry_restored(uses: Seq<(usize, i32)>, mid: usize) -> Seq<(usize, i32)> {
    match first_use(uses, mid, 0) {
        Some(i) => {
            let n = vstd::wrapping::i32_specs::wrapping_sub(uses[i].1, 5);
            uses.update(i, (uses[i].0, if n > 0 { n } else { 0i32 }))
        },
        None => uses,
    }
}

/// Spite's cut of `n` PP from `mid`.
pub open spec fn spited(uses: Seq<(usize, i32)>, mid: usize, n: i32) -> Seq<(usize, i32)> {
    match first_use(uses, mid, 0) {
        Some(i) => uses.update(i, (mid, vstd::wrapping::i32_specs::wrapping_add(uses[i].1, n))),
        None => uses.push((mid, n)),
    }
}

/// `|-activate|p1a: Nick|effect|...`: `trapped` starts the trap (once,
/// sourced to the other active); Protect or Detect ends the attacker's
/// rollout lock; a Mystery Berry restores PP; Spite cuts PP; Mimic sets the
/// overlay; a binding move starts the partial trap (once), sourced to the
/// `[of]` subject.
#[verifier::opaque]
pub open spec fn activate_spec(dex: TrackerDex, t: TrackerM, parts: Seq<Seq<char>>) -> TrackerM {
    match subject_spec(t, field(parts, 1)) {
        None => t,
        Some((s, m)) => {
            let what = field(parts, 2);
            let mon = t.sides[s as int].mons[m as int];
            if what == "trapped"@ {
                if has_vol(mon.vols, "trapped"@) {
                    t
                } else {
                    let v = VolM { key: "trapped"@, start_turn: t.turn, move_id: None, source: other_active(t, s), counter: None };
                    upd_mon(t, s as int, m as int, MonM { vols: mon.vols.push(v), ..mon })
                }
            } else if what == "Protect"@ || what == "Detect"@ {
                attacker_unlocked(dex, t, s)
            } else if what == "item: Mystery Berry"@ {
                match move_at(dex, parts, 3) {
                    Some(mid) => upd_mon(t, s as int, m as int, MonM { uses: berry_restored(mon.uses, mid), ..mon }),
                    None => t,
                }
            } else if begins_with(what, "move: "@) {
                let key = to_id(what.skip(6));
                if key == "spite"@ {
                    let n = if 4 < parts.len() { parse_i32_spec(parts[4]) } else { None };
                    match (move_at(dex, parts, 3), n) {
                        (Some(mid), Some(n)) => upd_mon(t, s as int, m as int, MonM { uses: spited(mon.uses, mid, n), ..mon }),
                        _ => t,
                    }
                } else if key == "mimic"@ {
                    match move_at(dex, parts, 3) {
                        Some(o) => upd_mon(t, s as int, m as int, MonM { mimic_overlay: Some(o), ..mon }),
                        None => t,
                    }
                } else if is_bind_key(key) {
                    if has_vol(mon.vols, "partiallytrapped"@) {
                        t
                    } else {
                        let source = match first_stripped(parts, "[of] "@, 0) {
                            Some(of) => subject_spec(t, of),
                            None => None,
                        };
                        let v = VolM {
                            key: "partiallytrapped"@,
                            start_turn: t.turn,
                            move_id: key_id(dex.moves@, key, 0),
                            source,
                            counter: None,
                        };
                        upd_mon(t, s as int, m as int, MonM { vols: mon.vols.push(v), ..mon })
                    }
                } else {
                    t
                }
            } else {
                t
            }
        },
    }
}

/// The attacker (the other side's active, against a subject on side `s`)
/// loses its rollout lock.
pub open spec fn attacker_unlocked(dex: TrackerDex, t: TrackerM, s: usize) -> TrackerM {
    let o = 1 - s;
    match t.sides[o].active {
        Some(a) => upd_mon(t, o, a as int, rollout_unlocked(dex, t.sides[o].mons[a as int])),
        None => t,
    }
}

impl TrackMon {
    fn vol_index(&self, key: &[char]) -> (r: Option<usize>)
        ensures
            match r {
                Some(k) => first_vol(mon_m(*self).vols, key@, 0) == Some(k as int) && k < self.vols@.len(),
                None => first_vol(mon_m(*self).vols, key@, 0) is None,
            },
    {
        reveal(mon_m);
        let ghost vm = vols_m(self.vols@);
        let mut i: usize = self.vols.len();
        let mut found: Option<usize> = None;
        while i > 0
            invariant
                i <= self.vols@.len(),
                vm == vols_m(self.vols@),
                match found {
                    Some(f) => first_vol(vm, key@, i as int) == Some(f as int),
                    None => first_vol(vm, key@, i as int) is None,
                },
            decreases i,
        {
            i = i - 1;
            assert(vm[i as int] == vol_m(self.vols@[i as int]));
            let k = chars_of(self.vols[i].key.as_str());
            if eq_chars(&k, key) {
                found = Some(i);
            }
        }
        proof {
            lemma_first_vol(vm, key@, 0);
        }
        found
    }

    fn use_index(&self, mid: usize) -> (r: Option<usize>)
        ensures
            match r {
                Some(k) => first_use(mon_m(*self).uses, mid, 0) == Some(k as int) && k < self.uses@.len(),
                None => first_use(mon_m(*self).uses, mid, 0) is None,
            },
    {
        reveal(mon_m);
        let mut i: usize = self.uses.len();
        let mut found: Option<usize> = None;
        while i > 0
            invariant
                i <= self.uses@.len(),
                match found {
                    Some(f) => first_use(self.uses@, mid, i as int) == Some(f as int),
                    None => first_use(self.uses@, mid, i as int) is None,
                },
            decreases i,
        {
            i = i - 1;
            if self.uses[i].0 == mid {
                found = Some(i);
            }
        }
        proof {
            lemma_first_use(self.uses@, mid, 0);
        }
        found
    }

    fn set_perish(&mut self, n: i64, turn: u16)
        ensures
            mon_m(*final(self)) == (MonM { vols: perish_set(mon_m(*old(self)).vols, n, turn), ..mon_m(*old(self)) }),
    {
        proof {
            reveal_strlit("perishsong");
        }
        let ps = chars_of("perishsong");
        let idx = self.vol_index(&ps);
        reveal(mon_m);
        let ghost vm = vols_m(self.vols@);
        match idx {
            Some(k) => {
                let v = copy_vol(&self.vols[k]);
                self.vols.set(k, TVol { counter: Some(n), ..v });
                proof {
                    assert(vols_m(self.vols@) =~= perish_set(vm, n, turn));
                }
            },
            None => {
                self.vols.push(TVol { key: text_of(&ps), start_turn: turn, move_id: None, source: None, counter: Some(n) });
                proof {
                    assert(vols_m(self.vols@) =~= perish_set(vm, n, turn));
                }
            },
        }
        proof {
            reveal(mon_m);
        }
    }

    fn restore_berry(&mut self, mid: usize)
        ensures
            mon_m(*final(self)) == (MonM { uses: berry_restored(mon_m(*old(self)).uses, mid), ..mon_m(*old(self)) }),
    {
        let idx = self.use_index(mid);
        reveal(mon_m);
        let ghost u0 = self.uses@;
        match idx {
            Some(k) => {
                let e = self.uses[k];
                let n = e.1.wrapping_sub(5);
                self.uses.set(k, (e.0, if n > 0 { n } else { 0i32 }));
                proof {
                    assert(self.uses@ =~= berry_restored(u0, mid));
                }
            },
            None => {},
        }
        proof {
            reveal(mon_m);
        }
    }

    fn spite(&mut self, mid: usize, n: i32)
        ensures
            mon_m(*final(self)) == (MonM { uses: spited(mon_m(*old(self)).uses, mid, n), ..mon_m(*old(self)) }),
    {
        let idx = self.use_index(mid);
        reveal(mon_m);
        let ghost u0 = self.uses@;
        match idx {
            Some(k) => {
                let u = self.uses[k].1;
                self.uses.set(k, (mid, u.wrapping_add(n)));
                proof {
                    assert(self.uses@ =~= spited(u0, mid, n));
                }
            },
            None => {
                self.uses.push((mid, n));
                proof {
                    assert(self.uses@ =~= spited(u0, mid, n));
                }
            },
        }
        proof {
            reveal(mon_m);
        }
    }

    fn set_mimic(&mut self, o: usize)
        ensures
            mon_m(*final(self)) == (MonM { mimic_overlay: Some(o), ..mon_m(*old(self)) }),
    {
        reveal(mon_m);
        self.mimic_overlay = Some(o);
    }

    fn last_move_now(&self) -> (r: Option<usize>)
        ensures
            r == mon_m(*self).last_move,
    {
        reveal(mon_m);
        self.last_move
    }
}

impl ProtocolTracker {
    fn other_active_exec(&self, s: usize) -> (r: Option<(usize, usize)>)
        requires
            s <= 1,
            self.model().sides.len() == 2,
        ensures
            r == other_active(self.model(), s),
    {
        let o = 1 - s;
        match self.side_ref(o).active {
            Some(a) => Some((o, a)),
            None => None,
        }
    }

    fn unlock_attacker(&mut self, dex: &TrackerDex, s: usize)
        requires
            s <= 1,
            tracker_wf(old(self).model()),
        ensures
            tracker_wf(final(self).model()),
            final(self).model() == attacker_unlocked(*dex, old(self).model(), s),
    {
        let o = 1 - s;
        let act = self.side_ref(o).active;
        match act {
            Some(a) => {
                let ghost t0 = self.model();
                let (sd, mut mon) = self.begin_mon(o, a);
                mon.unlock_rollout(dex);
                self.finish_mon(o, a, sd, mon, Ghost(t0));
            },
            None => {},
        }
    }

    #[verifier::rlimit(40)]
    fn on_start(&mut self, dex: &TrackerDex, parts: &Vec<Vec<char>>)
        requires
            tracker_wf(old(self).model()),
        ensures
            tracker_wf(final(self).model()),
            final(self).model() == start_spec(*dex, old(self).model(), views(parts@)),
    {
        reveal(start_spec);
        let (s, m) = match self.subject(&field_at(parts, 1)) {
            Some(x) => x,
            None => {
                return;
            },
        };
        let what = field_at(parts, 2);
        let turn = self.turn;
        let source = self.other_active_exec(s);
        let ghost t0 = self.model();
        proof {
            reveal_strlit("perish");
        }
        let perish = match strip_prefix_str(&what, "perish") {
            Some(n) => parse_i64(&n),
            None => None,
        };
        let (sd, mut mon) = self.begin_mon(s, m);
        match perish {
            Some(n) => {
                mon.set_perish(n, turn);
                self.finish_mon(s, m, sd, mon, Ghost(t0));
                return;
            },
            None => {},
        }
        let key = toid_chars(&strip_move_exec(&what));
        if eq_str(&key, "confusion") {
            mon.set_locked(None);
        }
        let known = find_cond(&dex.conds, &key);
        if known.is_none() || mon.has_vol(&key) {
            self.finish_mon(s, m, sd, mon, Ghost(t0));
            return;
        }
        let move_id = if eq_str(&key, "encore") {
            mon.last_move_now()
        } else if eq_str(&key, "disable") {
            match move_at_exec(dex, parts, 3) {
                Some(x) => Some(x),
                None => mon.last_move_now(),
            }
        } else {
            None
        };
        mon.push_vol(TVol { key: text_of(&key), start_turn: turn, move_id, source, counter: None });
        self.finish_mon(s, m, sd, mon, Ghost(t0));
    }

    #[verifier::rlimit(60)]
    fn on_activate(&mut self, dex: &TrackerDex, parts: &Vec<Vec<char>>)
        requires
            tracker_wf(old(self).model()),
        ensures
            tracker_wf(final(self).model()),
            final(self).model() == activate_spec(*dex, old(self).model(), views(parts@)),
    {
        reveal(activate_spec);
        let (s, m) = match self.subject(&field_at(parts, 1)) {
            Some(x) => x,
            None => {
                return;
            },
        };
        let what = field_at(parts, 2);
        let turn = self.turn;
        let ghost t0 = self.model();
        proof {
            reveal_strlit("trapped");
            reveal_strlit("partiallytrapped");
            reveal_strlit("move: ");
            reveal_strlit("[of] ");
        }
        if eq_str(&what, "trapped") {
            let source = self.other_active_exec(s);
            let tr = chars_of("trapped");
            let (sd, mut mon) = self.begin_mon(s, m);
            if !mon.has_vol(&tr) {
                mon.push_vol(TVol { key: text_of(&tr), start_turn: turn, move_id: None, source, counter: None });
                self.finish_mon(s, m, sd, mon, Ghost(t0));
            } else {
                let ghost mm = mon_m(mon);
                self.finish_mon(s, m, sd, mon, Ghost(t0));
                proof {
                    assert(t0.sides[s as int].mons.update(m as int, mm) =~= t0.sides[s as int].mons);
                    assert(upd_mon(t0, s as int, m as int, mm).sides =~= t0.sides);
                }
            }
            return;
        }
        if eq_str(&what, "Protect") || eq_str(&what, "Detect") {
            self.unlock_attacker(dex, s);
            return;
        }
        if eq_str(&what, "item: Mystery Berry") {
            match move_at_exec(dex, parts, 3) {
                Some(mid) => {
                    let (sd, mut mon) = self.begin_mon(s, m);
                    mon.restore_berry(mid);
                    self.finish_mon(s, m, sd, mon, Ghost(t0));
                },
                None => {},
            }
            return;
        }
        let name = match strip_prefix_str(&what, "move: ") {
            Some(n) => n,
            None => {
                return;
            },
        };
        let key = toid_chars(&name);
        if eq_str(&key, "spite") {
            let n = if 4 < parts.len() {
                assert(views(parts@)[4] == parts@[4]@);
                parse_i32(&parts[4])
            } else {
                None
            };
            match (move_at_exec(dex, parts, 3), n) {
                (Some(mid), Some(n)) => {
                    let (sd, mut mon) = self.begin_mon(s, m);
                    mon.spite(mid, n);
                    self.finish_mon(s, m, sd, mon, Ghost(t0));
                },
                _ => {},
            }
            return;
        }
        if eq_str(&key, "mimic") {
            match move_at_exec(dex, parts, 3) {
                Some(o) => {
                    let (sd, mut mon) = self.begin_mon(s, m);
                    mon.set_mimic(o);
                    self.finish_mon(s, m, sd, mon, Ghost(t0));
                },
                None => {},
            }
            return;
        }
        if is_bind_key_exec(&key) {
            let mid = find_key(&dex.moves, &key);
            let source = match find_stripped(parts, "[of] ") {
                Some(of) => self.subject(&of),
                None => None,
            };
            let pt = chars_of("partiallytrapped");
            let (sd, mut mon) = self.begin_mon(s, m);
            if !mon.has_vol(&pt) {
                mon.push_vol(TVol { key: text_of(&pt), start_turn: turn, move_id: mid, source, counter: None });
                self.finish_mon(s, m, sd, mon, Ghost(t0));
            } else {
                let ghost mm = mon_m(mon);
                self.finish_mon(s, m, sd, mon, Ghost(t0));
                proof {
                    assert(t0.sides[s as int].mons.update(m as int, mm) =~= t0.sides[s as int].mons);
                    assert(upd_mon(t0, s as int, m as int, mm).sides =~= t0.sides);
                }
            }
        }
    }
}


// ---------------------------------------------------------------- switches

/// The first `": "` in `s`, from `i` on.
pub open spec fn colon_at(s: Seq<char>, i: int) -> Option<int>
    decreases s.len() - i,
{
    if i < 0 || i + 2 > s.len() {
        None
    } else if s[i] == ':' && s[i + 1] == ' ' {
        Some(i)
    } else {
        colon_at(s, i + 1)
    }
}

proof fn lemma_colon_at(s: Seq<char>, i: int)
    requires
        0 <= i,
    ensures
        colon_at(s, i) matches Some(k) ==> i <= k && k + 2 <= s.len(),
    decreases s.len() - i,
{
    if i + 2 <= s.len() && !(s[i] == ':' && s[i + 1] == ' ') {
        lemma_colon_at(s, i + 1);
    }
}

/// What follows the first `": "` (`s.split_once(": ")`'s second half).
pub open spec fn after_colon(s: Seq<char>) -> Option<Seq<char>> {
    match colon_at(s, 0) {
        Some(i) => Some(s.skip(i + 2)),
        None => None,
    }
}

fn after_colon_exec(s: &[char]) -> (r: Option<Vec<char>>)
    ensures
        match r {
            Some(v) => after_colon(s@) == Some(v@),
            None => after_colon(s@) is None,
        },
{
    let mut i: usize = if s.len() >= 1 { s.len() - 1 } else { 0 };
    let mut found: Option<usize> = None;
    while i > 0
        invariant
            i + 1 <= s@.len() || i == 0,
            match found {
                Some(f) => colon_at(s@, i as int) == Some(f as int),
                None => colon_at(s@, i as int) is None,
            },
        decreases i,
    {
        i = i - 1;
        if s[i] == ':' && s[i + 1] == ' ' {
            found = Some(i);
        }
    }
    proof {
        lemma_colon_at(s@, 0);
    }
    match found {
        Some(k) => Some(skip_first(s, k + 2)),
        None => None,
    }
}

/// The first roster slot of `mons` holding `sp` at level `lv`, from `i` on.
pub open spec fn slot_of(mons: Seq<MonM>, sp: usize, lv: u8, i: int) -> Option<int>
    decreases mons.len() - i,
{
    if i < 0 || i >= mons.len() {
        None
    } else if mons[i].species == sp && mons[i].level == lv {
        Some(i)
    } else {
        slot_of(mons, sp, lv, i + 1)
    }
}

proof fn lemma_slot_of(mons: Seq<MonM>, sp: usize, lv: u8, i: int)
    requires
        0 <= i,
    ensures
        slot_of(mons, sp, lv, i) matches Some(k) ==> i <= k < mons.len(),
    decreases mons.len() - i,
{
    if i < mons.len() && !(mons[i].species == sp && mons[i].level == lv) {
        lemma_slot_of(mons, sp, lv, i + 1);
    }
}

/// The volatiles Baton Pass hands on: those of a runtime condition that
/// the dex does not mark as left behind.
pub open spec fn bp_vols(conds: Seq<(String, bool)>, vols: Seq<VolM>) -> Seq<VolM>
    decreases vols.len(),
{
    if vols.len() == 0 {
        vols
    } else {
        let rest = bp_vols(conds, vols.drop_last());
        let keep = match cond_slot(conds, vols.last().key, 0) {
            Some(c) => !conds[c].1,
            None => false,
        };
        if keep { rest.push(vols.last()) } else { rest }
    }
}

/// What a Baton Pass carries from the outgoing mon: boosts, the passed
/// volatiles and the three companions.
pub open spec fn carried(dex: TrackerDex, om: MonM) -> (Seq<i8>, Seq<VolM>, Option<i32>, bool, bool) {
    (om.boosts, bp_vols(dex.conds@, om.vols), om.comp_res, om.comp_brn, om.comp_par)
}

pub open spec fn carried_view(c: ([i8; 7], Vec<TVol>, Option<i32>, bool, bool)) -> (Seq<i8>, Seq<VolM>, Option<i32>, bool, bool) {
    (c.0@, vols_m(c.1@), c.2, c.3, c.4)
}

/// The incoming mon: it has appeared (once more), entered this turn and is
/// active; it takes what a Baton Pass carried; the HP-status field is read;
/// a burn or paralysis puts its stat-drop companion back.
pub open spec fn switched_in(inc: MonM, inherit: Option<(Seq<i8>, Seq<VolM>, Option<i32>, bool, bool)>, turn: u16, hp: Seq<char>) -> MonM {
    with_companion(with_hp_status(with_carried(entered(inc, turn), inherit), hp))
}

/// A mon entering the field on `turn`.
pub open spec fn entered(inc: MonM, turn: u16) -> MonM {
    MonM {
        appeared: true,
        appear_count: vstd::wrapping::i32_specs::wrapping_add(inc.appear_count, 1),
        switch_in_turn: turn,
        active: true,
        ..inc
    }
}

/// A mon taking what a Baton Pass carried, if anything.
pub open spec fn with_carried(m: MonM, inherit: Option<(Seq<i8>, Seq<VolM>, Option<i32>, bool, bool)>) -> MonM {
    match inherit {
        Some(c) => MonM { boosts: c.0, vols: c.1, comp_res: c.2, comp_brn: c.3, comp_par: c.4, ..m },
        None => m,
    }
}

/// A burned or paralyzed mon's stat-drop companion is present.
pub open spec fn with_companion(m: MonM) -> MonM {
    match m.status {
        Status::Brn => MonM { comp_brn: true, ..m },
        Status::Par => MonM { comp_par: true, ..m },
        _ => m,
    }
}

/// The side once the incoming mon's nickname is learned.
pub open spec fn switch_named(sd0: SideM, slot: int, subj: Seq<char>) -> SideM {
    match after_colon(subj) {
        Some(n) => SideM { mons: sd0.mons.update(slot, MonM { name: n, ..sd0.mons[slot] }), ..sd0 },
        None => sd0,
    }
}

/// The side's active leaves for `slot` (a different one).
pub open spec fn switch_leaves(sd1: SideM, slot: int) -> bool {
    match sd1.active {
        Some(o) => o != slot,
        None => false,
    }
}

/// What the switch hands on: a Baton Pass's carry, unless a drag.
pub open spec fn switch_inherit(dex: TrackerDex, t: TrackerM, side: usize, slot: int, subj: Seq<char>, is_drag: bool) -> Option<(Seq<i8>, Seq<VolM>, Option<i32>, bool, bool)> {
    let sd1 = switch_named(t.sides[side as int], slot, subj);
    if switch_leaves(sd1, slot) && t.sides[side as int].pending_bp && !is_drag {
        Some(carried(dex, sd1.mons[sd1.active.unwrap() as int]))
    } else {
        None
    }
}

/// The tracker once the nickname is learned and the outgoing mon is gone.
pub open spec fn switch_out(t: TrackerM, side: usize, slot: int, subj: Seq<char>) -> TrackerM {
    let sd1 = switch_named(t.sides[side as int], slot, subj);
    if switch_leaves(sd1, slot) {
        let o = sd1.active.unwrap();
        let gone = cleared_on_exit(MonM { active: false, ..sd1.mons[o as int] });
        clear_sourced(upd_side(t, side as int, SideM { mons: sd1.mons.update(o as int, gone), ..sd1 }), (side, o))
    } else {
        upd_side(t, side as int, sd1)
    }
}

/// The incoming mon takes the field.
pub open spec fn switch_enter(t2: TrackerM, side: usize, slot: int, inherit: Option<(Seq<i8>, Seq<VolM>, Option<i32>, bool, bool)>, turn: u16, hp: Seq<char>) -> TrackerM {
    let sd2 = t2.sides[side as int];
    upd_side(t2, side as int, SideM {
        pending_bp: false,
        acted_this_turn: true,
        active: Some(slot as usize),
        mons: sd2.mons.update(slot, switched_in(sd2.mons[slot], inherit, turn, hp)),
        ..sd2
    })
}

/// `|switch|` / `|drag|p1a: Nick|Species, L50|HP status`: the incoming mon
/// is the roster slot of that species and level (its nickname learned);
/// a different outgoing mon leaves the field (its switch-out clearing, the
/// traps it held ending), handing on what a Baton Pass carries unless the
/// switch is a drag; the side's action is spent and the incoming mon is
/// active.
#[verifier::opaque]
pub open spec fn switch_spec(dex: TrackerDex, t: TrackerM, parts: Seq<Seq<char>>, is_drag: bool) -> TrackerM {
    let subj = field(parts, 1);
    match side_subject(subj) {
        None => t,
        Some(side) => match details_spec(dex.species@, field(parts, 2)) {
            None => t,
            Some((sp, lv, _)) => match slot_of(t.sides[side as int].mons, sp, lv, 0) {
                None => t,
                Some(slot) => {
                    let inherit = switch_inherit(dex, t, side, slot, subj, is_drag);
                    switch_enter(switch_out(t, side, slot, subj), side, slot, inherit, t.turn, field(parts, 3))
                },
            },
        },
    }
}

impl TrackSide {
    fn slot_of(&self, sp: usize, lv: u8) -> (r: Option<usize>)
        ensures
            match r {
                Some(k) => slot_of(side_m(*self).mons, sp, lv, 0) == Some(k as int) && k < self.mons@.len(),
                None => slot_of(side_m(*self).mons, sp, lv, 0) is None,
            },
    {
        let ghost mons = side_m(*self).mons;
        let mut i: usize = self.mons.len();
        let mut found: Option<usize> = None;
        while i > 0
            invariant
                i <= self.mons@.len(),
                mons == side_m(*self).mons,
                match found {
                    Some(f) => slot_of(mons, sp, lv, i as int) == Some(f as int),
                    None => slot_of(mons, sp, lv, i as int) is None,
                },
            decreases i,
        {
            i = i - 1;
            assert(mons[i as int] == mon_m(self.mons@[i as int]));
            proof {
                reveal(mon_m);
            }
            if self.mons[i].species == sp && self.mons[i].level == lv {
                found = Some(i);
            }
        }
        proof {
            lemma_slot_of(mons, sp, lv, 0);
        }
        found
    }
}

impl TrackMon {
    fn set_name(&mut self, n: &[char])
        ensures
            mon_m(*final(self)) == (MonM { name: n@, ..mon_m(*old(self)) }),
    {
        reveal(mon_m);
        self.name = text_of(n);
    }

    fn set_inactive(&mut self)
        ensures
            mon_m(*final(self)) == (MonM { active: false, ..mon_m(*old(self)) }),
    {
        reveal(mon_m);
        self.active = false;
    }

    fn carried(&self, dex: &TrackerDex) -> (r: ([i8; 7], Vec<TVol>, Option<i32>, bool, bool))
        ensures
            carried_view(r) == carried(*dex, mon_m(*self)),
    {
        reveal(mon_m);
        let ghost vm = vols_m(self.vols@);
        let mut kept: Vec<TVol> = Vec::new();
        for i in 0..self.vols.len()
            invariant
                vm == vols_m(self.vols@),
                vols_m(kept@) == bp_vols(dex.conds@, vm.take(i as int)),
        {
            assert(vm.take(i + 1).drop_last() =~= vm.take(i as int));
            assert(vm.take(i + 1).last() == vol_m(self.vols@[i as int]));
            let k = chars_of(self.vols[i].key.as_str());
            let keep = match find_cond(&dex.conds, &k) {
                Some(c) => !dex.conds[c].1,
                None => false,
            };
            if keep {
                let ghost before = vols_m(kept@);
                kept.push(copy_vol(&self.vols[i]));
                assert(vols_m(kept@) =~= before.push(vm[i as int]));
            }
        }
        assert(vm.take(vm.len() as int) =~= vm);
        (self.boosts, kept, self.comp_res, self.comp_brn, self.comp_par)
    }

    fn enter(&mut self, turn: u16)
        ensures
            mon_m(*final(self)) == entered(mon_m(*old(self)), turn),
    {
        reveal(mon_m);
        self.appeared = true;
        self.appear_count = self.appear_count.wrapping_add(1);
        self.switch_in_turn = turn;
        self.active = true;
    }

    fn take_carried(&mut self, inherit: Option<([i8; 7], Vec<TVol>, Option<i32>, bool, bool)>)
        ensures
            mon_m(*final(self)) == with_carried(mon_m(*old(self)), match inherit {
                Some(c) => Some(carried_view(c)),
                None => None,
            }),
    {
        reveal(mon_m);
        match inherit {
            Some(c) => {
                self.boosts = c.0;
                self.vols = c.1;
                self.comp_res = c.2;
                self.comp_brn = c.3;
                self.comp_par = c.4;
            },
            None => {},
        }
    }

    fn add_companion(&mut self)
        ensures
            mon_m(*final(self)) == with_companion(mon_m(*old(self))),
    {
        reveal(mon_m);
        match self.status {
            Status::Brn => {
                self.comp_brn = true;
            },
            Status::Par => {
                self.comp_par = true;
            },
            _ => {},
        }
    }

    fn switch_in(&mut self, inherit: Option<([i8; 7], Vec<TVol>, Option<i32>, bool, bool)>, turn: u16, hp: &[char])
        ensures
            mon_m(*final(self)) == switched_in(mon_m(*old(self)), match inherit {
                Some(c) => Some(carried_view(c)),
                None => None,
            }, turn, hp@),
    {
        self.enter(turn);
        self.take_carried(inherit);
        self.apply_hp_status(hp);
        self.add_companion();
    }
}

proof fn lemma_clear_sourced_shape(t: TrackerM, src: (usize, usize))
    ensures
        clear_sourced(t, src).sides.len() == t.sides.len(),
        forall|k: int| 0 <= k < t.sides.len() ==> (#[trigger] clear_sourced(t, src).sides[k]).mons.len() == t.sides[k].mons.len(),
        forall|k: int| 0 <= k < t.sides.len() ==> (#[trigger] clear_sourced(t, src).sides[k]).active == t.sides[k].active,
        clear_sourced(t, src).turn == t.turn,
{
}

impl ProtocolTracker {
    #[verifier::rlimit(40)]
    fn switch_out_phase(&mut self, dex: &TrackerDex, side: usize, slot: usize, subj: &[char], is_drag: bool) -> (inherit: Option<([i8; 7], Vec<TVol>, Option<i32>, bool, bool)>)
        requires
            tracker_wf(old(self).model()),
            side <= 1,
            slot < old(self).model().sides[side as int].mons.len(),
        ensures
            tracker_wf(final(self).model()),
            final(self).model() == switch_out(old(self).model(), side, slot as int, subj@),
            match inherit {
                Some(c) => Some(carried_view(c)),
                None => None,
            } == switch_inherit(*dex, old(self).model(), side, slot as int, subj@, is_drag),
            final(self).model().sides[side as int].mons.len() == old(self).model().sides[side as int].mons.len(),
            final(self).model().turn == old(self).model().turn,
    {
        let ghost t0 = self.model();
        let name = after_colon_exec(subj);
        let mut sd = self.take_side(side);
        match name {
            Some(n) => {
                let mut mon = sd.take_mon(slot);
                mon.set_name(&n);
                sd.put_mon(slot, mon);
            },
            None => {},
        }
        let ghost sd1 = switch_named(t0.sides[side as int], slot as int, subj@);
        assert(side_m(sd).mons =~= sd1.mons);
        assert(side_m(sd) == sd1);
        let bp = sd.pending_bp && !is_drag;
        let mut inherit: Option<([i8; 7], Vec<TVol>, Option<i32>, bool, bool)> = None;
        let out = match sd.active {
            Some(o) => o != slot,
            None => false,
        };
        if out {
            let o = sd.active.unwrap();
            let mut om = sd.take_mon(o);
            om.set_inactive();
            if bp {
                inherit = Some(om.carried(dex));
            }
            om.clear_on_exit();
            sd.put_mon(o, om);
            assert(side_m(sd).mons =~= sd1.mons.update(o as int, cleared_on_exit(MonM { active: false, ..sd1.mons[o as int] })));
            self.put_side(side, sd);
            proof {
                lemma_upd_side_twice(t0, side as int, empty_side(), side_m(sd));
            }
            let ghost t1 = self.model();
            self.clear_sourced_vols((side, o));
            proof {
                lemma_clear_sourced_shape(t1, (side, o));
            }
        } else {
            self.put_side(side, sd);
            proof {
                lemma_upd_side_twice(t0, side as int, empty_side(), side_m(sd));
            }
        }
        inherit
    }

    fn switch_in_phase(&mut self, side: usize, slot: usize, inherit: Option<([i8; 7], Vec<TVol>, Option<i32>, bool, bool)>, turn: u16, hp: &[char])
        requires
            tracker_wf(old(self).model()),
            side <= 1,
            slot < old(self).model().sides[side as int].mons.len(),
        ensures
            tracker_wf(final(self).model()),
            final(self).model() == switch_enter(old(self).model(), side, slot as int, match inherit {
                Some(c) => Some(carried_view(c)),
                None => None,
            }, turn, hp@),
    {
        let ghost t2 = self.model();
        let mut sd = self.take_side(side);
        sd.pending_bp = false;
        sd.acted_this_turn = true;
        let mut mon = sd.take_mon(slot);
        mon.switch_in(inherit, turn, hp);
        sd.put_mon(slot, mon);
        sd.active = Some(slot);
        let ghost sd2 = t2.sides[side as int];
        assert(side_m(sd).mons =~= sd2.mons.update(slot as int, mon_m(mon)));
        self.put_side(side, sd);
        proof {
            lemma_upd_side_twice(t2, side as int, empty_side(), side_m(sd));
        }
    }

    fn on_switch(&mut self, dex: &TrackerDex, parts: &Vec<Vec<char>>, is_drag: bool)
        requires
            tracker_wf(old(self).model()),
        ensures
            tracker_wf(final(self).model()),
            final(self).model() == switch_spec(*dex, old(self).model(), views(parts@), is_drag),
    {
        reveal(switch_spec);
        let subj = field_at(parts, 1);
        let side = match side_subject_exec(&subj) {
            Some(x) => x,
            None => {
                return;
            },
        };
        assert(side <= 1) by {
            let b = vstd::utf8::encode_utf8(field(views(parts@), 1));
            assert(b[1] == 0x31u8 || b[1] == 0x32u8);
        }
        let (sp, lv) = match parse_details(dex, &field_at(parts, 2)) {
            Some((a, b, _)) => (a, b),
            None => {
                return;
            },
        };
        let slot = match self.side_ref(side).slot_of(sp, lv) {
            Some(x) => x,
            None => {
                return;
            },
        };
        let turn = self.turn;
        let inherit = self.switch_out_phase(dex, side, slot, &subj, is_drag);
        self.switch_in_phase(side, slot, inherit, turn, &field_at(parts, 3));
    }
}


// ------------------------------------------------------------------- feed

/// One player-visible protocol line (`|cmd|arg|...`) applied to the
/// tracker; a line without the leading `|`, or of a command the tracker
/// does not follow, changes nothing.
#[verifier::opaque]
pub open spec fn push_line_spec(dex: TrackerDex, t: TrackerM, line: Seq<char>) -> TrackerM {
    if !begins_with(line, "|"@) {
        t
    } else {
        let parts = split_spec(line.skip(1), '|');
        let cmd = field(parts, 0);
        if cmd == "poke"@ {
            poke_spec(dex, t, parts)
        } else if cmd == "turn"@ {
            turn_spec(t, parts)
        } else if cmd == "upkeep"@ {
            TrackerM { upkeep_this_turn: true, ..t }
        } else if cmd == "switch"@ {
            switch_spec(dex, t, parts, false)
        } else if cmd == "drag"@ {
            switch_spec(dex, t, parts, true)
        } else if cmd == "faint"@ {
            faint_spec(t, parts)
        } else if cmd == "move"@ {
            move_spec(dex, t, parts)
        } else if cmd == "cant"@ {
            cant_spec(t, parts)
        } else if cmd == "-damage"@ || cmd == "-heal"@ || cmd == "-sethp"@ {
            hp_line_spec(t, parts)
        } else if cmd == "-status"@ {
            status_line_spec(t, parts)
        } else if cmd == "-curestatus"@ {
            curestatus_spec(t, parts)
        } else if cmd == "-cureteam"@ {
            cureteam_spec(t, parts)
        } else if cmd == "-boost"@ {
            boost_spec(t, parts, false)
        } else if cmd == "-unboost"@ {
            boost_spec(t, parts, true)
        } else if cmd == "-copyboost"@ {
            copyboost_spec(t, parts)
        } else if cmd == "-clearallboost"@ {
            clearallboost_spec(t)
        } else if cmd == "-start"@ {
            start_spec(dex, t, parts)
        } else if cmd == "-end"@ {
            end_spec(t, parts)
        } else if cmd == "-activate"@ {
            activate_spec(dex, t, parts)
        } else if cmd == "-singleturn"@ {
            singleturn_spec(t, parts)
        } else if cmd == "-singlemove"@ {
            singlemove_spec(t, parts)
        } else if cmd == "-sidestart"@ {
            sidestart_spec(t, parts)
        } else if cmd == "-sideend"@ {
            sideend_spec(t, parts)
        } else if cmd == "-weather"@ {
            weather_spec(t, parts)
        } else if cmd == "-prepare"@ {
            prepare_spec(dex, t, parts)
        } else if cmd == "-anim"@ {
            anim_spec(t, parts)
        } else if cmd == "-transform"@ {
            transform_spec(t, parts)
        } else if cmd == "-mustrecharge"@ {
            mustrecharge_spec(t, parts)
        } else if cmd == "-miss"@ || cmd == "-fail"@ {
            miss_spec(dex, t, parts)
        } else if cmd == "-immune"@ {
            immune_spec(dex, t, parts)
        } else {
            t
        }
    }
}

impl ProtocolTracker {
    /// Feeds one player-visible protocol line.
    #[verifier::rlimit(60)]
    pub fn push_line(&mut self, dex: &TrackerDex, line: &str)
        requires
            tracker_wf(old(self).model()),
        ensures
            tracker_wf(final(self).model()),
            final(self).model() == push_line_spec(*dex, old(self).model(), line@),
    {
        reveal(push_line_spec);
        let cs = chars_of(line);
        let body = match strip_prefix_str(&cs, "|") {
            Some(b) => b,
            None => {
                return;
            },
        };
        proof {
            reveal_strlit("|");
        }
        let parts = split_chars(&body, '|');
        let cmd = field_at(&parts, 0);
        if eq_str(&cmd, "poke") {
            self.on_poke(dex, &parts);
        } else if eq_str(&cmd, "turn") {
            self.on_turn(&parts);
        } else if eq_str(&cmd, "upkeep") {
            self.upkeep_this_turn = true;
        } else if eq_str(&cmd, "switch") {
            self.on_switch(dex, &parts, false);
        } else if eq_str(&cmd, "drag") {
            self.on_switch(dex, &parts, true);
        } else if eq_str(&cmd, "faint") {
            self.on_faint(&parts);
        } else if eq_str(&cmd, "move") {
            self.on_move(dex, &parts);
        } else if eq_str(&cmd, "cant") {
            self.on_cant(&parts);
        } else if eq_str(&cmd, "-damage") || eq_str(&cmd, "-heal") || eq_str(&cmd, "-sethp") {
            self.on_hp_line(&parts);
        } else if eq_str(&cmd, "-status") {
            self.on_status_line(&parts);
        } else if eq_str(&cmd, "-curestatus") {
            self.on_curestatus(&parts);
        } else if eq_str(&cmd, "-cureteam") {
            self.on_cureteam(&parts);
        } else if eq_str(&cmd, "-boost") {
            self.on_boost(&parts, false);
        } else if eq_str(&cmd, "-unboost") {
            self.on_boost(&parts, true);
        } else if eq_str(&cmd, "-copyboost") {
            self.on_copyboost(&parts);
        } else if eq_str(&cmd, "-clearallboost") {
            self.on_clearallboost();
        } else if eq_str(&cmd, "-start") {
            self.on_start(dex, &parts);
        } else if eq_str(&cmd, "-end") {
            self.on_end(&parts);
        } else if eq_str(&cmd, "-activate") {
            self.on_activate(dex, &parts);
        } else if eq_str(&cmd, "-singleturn") {
            self.on_singleturn(&parts);
        } else if eq_str(&cmd, "-singlemove") {
            self.on_singlemove(&parts);
        } else if eq_str(&cmd, "-sidestart") {
            self.on_sidestart(&parts);
        } else if eq_str(&cmd, "-sideend") {
            self.on_sideend(&parts);
        } else if eq_str(&cmd, "-weather") {
            self.on_weather(&parts);
        } else if eq_str(&cmd, "-prepare") {
            self.on_prepare(dex, &parts);
        } else if eq_str(&cmd, "-anim") {
            self.on_anim(&parts);
        } else if eq_str(&cmd, "-transform") {
            self.on_transform(&parts);
        } else if eq_str(&cmd, "-mustrecharge") {
            self.on_mustrecharge(&parts);
        } else if eq_str(&cmd, "-miss") || eq_str(&cmd, "-fail") {
            self.on_miss(dex, &parts);
        } else if eq_str(&cmd, "-immune") {
            self.on_immune(dex, &parts);
        }
    }
}


// ------------------------------------------------------------------ views

/// What the opponent's preview showed of one roster mon, as the observer
/// takes it: nothing yet revealed, the item unknown.
pub open spec fn obs_of(m: MonM) -> (usize, u8, Gender, Seq<char>, bool, bool) {
    (m.species, m.level, m.gender, m.name, m.preview_item, m.appeared)
}

impl ProtocolTracker {
    /// The opponent's roster as observer mons, one per slot.
    pub fn observer_mons(&self) -> (out: Vec<MonObs>)
        requires
            tracker_wf(self.model()),
        ensures
            out@.len() == self.model().sides[1 - self.model().side].mons.len(),
            forall|i: int| 0 <= i < out@.len() ==> {
                let o = #[trigger] out@[i];
                &&& (o.species, o.level, o.gender, o.name@, o.preview_has_item, o.appeared) == obs_of(self.model().sides[1 - self.model().side].mons[i])
                &&& o.revealed_moves@.len() == 0
                &&& o.item == (ItemObs { original: None, current: None, gained: false })
            },
    {
        let sd = self.side_ref(1 - self.side);
        let mut out: Vec<MonObs> = Vec::new();
        for i in 0..sd.mons.len()
            invariant
                side_m(*sd) == self.model().sides[1 - self.model().side],
                out@.len() == i,
                forall|j: int| 0 <= j < i ==> {
                    let o = #[trigger] out@[j];
                    &&& (o.species, o.level, o.gender, o.name@, o.preview_has_item, o.appeared) == obs_of(side_m(*sd).mons[j])
                    &&& o.revealed_moves@.len() == 0
                    &&& o.item == (ItemObs { original: None, current: None, gained: false })
                },
        {
            let m = &sd.mons[i];
            assert(side_m(*sd).mons[i as int] == mon_m(*m));
            proof {
                reveal(mon_m);
            }
            out.push(MonObs {
                species: m.species,
                level: m.level,
                gender: m.gender,
                name: String::from_str(m.name.as_str()),
                preview_has_item: m.preview_item,
                revealed_moves: Vec::new(),
                item: ItemObs::unknown(),
                appeared: m.appeared,
            });
        }
        out
    }

    /// The nicknames known for `side`'s roster slots (empty = not yet seen).
    pub fn names(&self, side: usize) -> (out: Vec<String>)
        requires
            side <= 1,
        ensures
            out@.len() == self.model().sides[side as int].mons.len(),
            forall|i: int| 0 <= i < out@.len() ==> (#[trigger] out@[i])@ == self.model().sides[side as int].mons[i].name,
    {
        let sd = self.side_ref(side);
        let mut out: Vec<String> = Vec::new();
        for i in 0..sd.mons.len()
            invariant
                side_m(*sd) == self.model().sides[side as int],
                out@.len() == i,
                forall|j: int| 0 <= j < i ==> (#[trigger] out@[j])@ == side_m(*sd).mons[j].name,
        {
            assert(side_m(*sd).mons[i as int] == mon_m(sd.mons@[i as int]));
            proof {
                reveal(mon_m);
            }
            out.push(String::from_str(sd.mons[i].name.as_str()));
        }
        out
    }

    /// Side `side`'s tracked state.
    pub fn side_state(&self, side: usize) -> (r: &TrackSide)
        requires
            side <= 1,
        ensures
            side_m(*r) == self.model().sides[side as int],
    {
        self.side_ref(side)
    }

    /// The weather and the upkeeps seen since it was set.
    pub fn weather(&self) -> (r: Option<(String, u16)>)
        ensures
            match r {
                Some(w) => self.model().weather == Some((w.0@, w.1)),
                None => self.model().weather is None,
            },
    {
        match &self.weather {
            Some(w) => Some((String::from_str(w.0.as_str()), w.1)),
            None => None,
        }
    }
}


// ------------------------------------------------------------------- laws

/// Every boost stage of a mon: seven of them, each within -6..=6.
pub open spec fn stages_ok(b: Seq<i8>) -> bool {
    b.len() == 7 && forall|k: int| 0 <= k < 7 ==> -6 <= #[trigger] b[k] <= 6
}

/// Every tracked mon's boost stages are in range.
pub open spec fn boosts_ok(t: TrackerM) -> bool {
    forall|s: int, i: int|
        0 <= s < t.sides.len() && 0 <= i < t.sides[s].mons.len() ==> stages_ok(#[trigger] t.sides[s].mons[i].boosts)
}

/// Roster slot `i` of side `s` holds the same species at the same level
/// in both trackers.
pub open spec fn same_slot(t: TrackerM, t2: TrackerM, s: int, i: int) -> bool {
    &&& i < t2.sides[s].mons.len()
    &&& t2.sides[s].mons[i].species == t.sides[s].mons[i].species
    &&& t2.sides[s].mons[i].level == t.sides[s].mons[i].level
}

/// Every roster slot of `t` is still there in `t2`, with the same species
/// and level.
pub open spec fn roster_kept(t: TrackerM, t2: TrackerM) -> bool {
    &&& t2.sides.len() == t.sides.len()
    &&& forall|s: int, i: int| 0 <= s < t.sides.len() && 0 <= i < t.sides[s].mons.len() ==> #[trigger] same_slot(t, t2, s, i)
}

/// The rosters are the same length on every side.
pub open spec fn roster_lens_same(t: TrackerM, t2: TrackerM) -> bool {
    forall|s: int| 0 <= s < t.sides.len() ==> (#[trigger] t2.sides[s]).mons.len() == t.sides[s].mons.len()
}

/// A step that keeps the rosters (and their lengths) and keeps boosts in
/// range.
pub open spec fn step_ok(t: TrackerM, t2: TrackerM) -> bool {
    &&& roster_kept(t, t2)
    &&& roster_lens_same(t, t2)
    &&& (boosts_ok(t) ==> boosts_ok(t2))
    &&& tracker_wf(t2)
}

/// The line is a team-preview `|poke|` line.
pub open spec fn is_preview_line(line: Seq<char>) -> bool {
    begins_with(line, "|"@) && field(split_spec(line.skip(1), '|'), 0) == "poke"@
}

proof fn lemma_step_trans(a: TrackerM, b: TrackerM, c: TrackerM)
    requires
        step_ok(a, b),
        step_ok(b, c),
    ensures
        step_ok(a, c),
{
    assert forall|s: int, i: int| 0 <= s < a.sides.len() && 0 <= i < a.sides[s].mons.len() implies #[trigger] same_slot(a, c, s, i) by {
        assert(same_slot(a, b, s, i));
        assert(same_slot(b, c, s, i));
    }
    assert forall|s: int| 0 <= s < a.sides.len() implies (#[trigger] c.sides[s]).mons.len() == a.sides[s].mons.len() by {
        assert(b.sides[s].mons.len() == a.sides[s].mons.len());
    }
}

proof fn lemma_roster_trans(a: TrackerM, b: TrackerM, c: TrackerM)
    requires
        roster_kept(a, b),
        roster_lens_same(a, b),
        roster_kept(b, c),
        roster_lens_same(b, c),
    ensures
        roster_kept(a, c),
        roster_lens_same(a, c),
{
    assert forall|s: int, i: int| 0 <= s < a.sides.len() && 0 <= i < a.sides[s].mons.len() implies #[trigger] same_slot(a, c, s, i) by {
        assert(same_slot(a, b, s, i));
        assert(same_slot(b, c, s, i));
    }
    assert forall|s: int| 0 <= s < a.sides.len() implies (#[trigger] c.sides[s]).mons.len() == a.sides[s].mons.len() by {
        assert(b.sides[s].mons.len() == a.sides[s].mons.len());
    }
}

proof fn lemma_step_refl(t: TrackerM)
    requires
        tracker_wf(t),
    ensures
        step_ok(t, t),
{
    assert forall|s: int, i: int| 0 <= s < t.sides.len() && 0 <= i < t.sides[s].mons.len() implies #[trigger] same_slot(t, t, s, i) by {}
}

/// Replacing one mon with one of the same species and level, whose stages
/// are in range when the tracker's are, is a good step.
proof fn lemma_upd_mon_ok(t: TrackerM, s: int, m: int, mon: MonM)
    requires
        tracker_wf(t),
        0 <= s < 2,
        0 <= m < t.sides[s].mons.len(),
        mon.species == t.sides[s].mons[m].species,
        mon.level == t.sides[s].mons[m].level,
        boosts_ok(t) ==> stages_ok(mon.boosts),
    ensures
        step_ok(t, upd_mon(t, s, m, mon)),
{
    let t2 = upd_mon(t, s, m, mon);
    assert forall|a: int, i: int| 0 <= a < t.sides.len() && 0 <= i < t.sides[a].mons.len() implies #[trigger] same_slot(t, t2, a, i) by {}
    assert forall|a: int| 0 <= a < t.sides.len() implies (#[trigger] t2.sides[a]).mons.len() == t.sides[a].mons.len() by {}
    if boosts_ok(t) {
        assert forall|a: int, i: int| 0 <= a < t2.sides.len() && 0 <= i < t2.sides[a].mons.len() implies stages_ok(#[trigger] t2.sides[a].mons[i].boosts) by {
            if a == s && i == m {
            } else {
                assert(t2.sides[a].mons[i] == t.sides[a].mons[i]);
                assert(stages_ok(t.sides[a].mons[i].boosts));
            }
        }
    }
}

/// Replacing a side by one with the same roster (species, levels, stages
/// in range when they were) and a valid active slot is a good step.
proof fn lemma_upd_side_ok(t: TrackerM, s: int, sd: SideM)
    requires
        tracker_wf(t),
        0 <= s < 2,
        sd.mons.len() == t.sides[s].mons.len(),
        side_wf(sd),
        forall|i: int| 0 <= i < sd.mons.len() ==> (#[trigger] sd.mons[i]).species == t.sides[s].mons[i].species && sd.mons[i].level == t.sides[s].mons[i].level,
        boosts_ok(t) ==> forall|i: int| 0 <= i < sd.mons.len() ==> stages_ok(#[trigger] sd.mons[i].boosts),
    ensures
        step_ok(t, upd_side(t, s, sd)),
{
    let t2 = upd_side(t, s, sd);
    assert forall|a: int, i: int| 0 <= a < t.sides.len() && 0 <= i < t.sides[a].mons.len() implies #[trigger] same_slot(t, t2, a, i) by {
        if a == s {
            assert(sd.mons[i].species == t.sides[s].mons[i].species);
        }
    }
    assert forall|a: int| 0 <= a < t.sides.len() implies (#[trigger] t2.sides[a]).mons.len() == t.sides[a].mons.len() by {}
    if boosts_ok(t) {
        assert forall|a: int, i: int| 0 <= a < t2.sides.len() && 0 <= i < t2.sides[a].mons.len() implies stages_ok(#[trigger] t2.sides[a].mons[i].boosts) by {
            if a == s {
                assert(stages_ok(sd.mons[i].boosts));
            } else {
                assert(stages_ok(t.sides[a].mons[i].boosts));
            }
        }
    }
}

/// Replacing a side by one with the same roster and a valid active slot
/// keeps the rosters.
proof fn lemma_upd_side_roster(t: TrackerM, s: int, sd: SideM)
    requires
        tracker_wf(t),
        0 <= s < 2,
        sd.mons.len() == t.sides[s].mons.len(),
        side_wf(sd),
        forall|i: int| 0 <= i < sd.mons.len() ==> (#[trigger] sd.mons[i]).species == t.sides[s].mons[i].species && sd.mons[i].level == t.sides[s].mons[i].level,
    ensures
        roster_kept(t, upd_side(t, s, sd)),
        roster_lens_same(t, upd_side(t, s, sd)),
        tracker_wf(upd_side(t, s, sd)),
{
    let t2 = upd_side(t, s, sd);
    assert forall|a: int, i: int| 0 <= a < t.sides.len() && 0 <= i < t.sides[a].mons.len() implies #[trigger] same_slot(t, t2, a, i) by {
        if a == s {
            assert(sd.mons[i].species == t.sides[s].mons[i].species);
        }
    }
    assert forall|a: int| 0 <= a < t.sides.len() implies (#[trigger] t2.sides[a]).mons.len() == t.sides[a].mons.len() by {}
}

proof fn lemma_clear_sourced_ok(t: TrackerM, src: (usize, usize))
    requires
        tracker_wf(t),
    ensures
        step_ok(t, clear_sourced(t, src)),
{
    let t2 = clear_sourced(t, src);
    assert forall|a: int, i: int| 0 <= a < t.sides.len() && 0 <= i < t.sides[a].mons.len() implies #[trigger] same_slot(t, t2, a, i) by {}
    assert forall|a: int| 0 <= a < t.sides.len() implies (#[trigger] t2.sides[a]).mons.len() == t.sides[a].mons.len() by {}
    if boosts_ok(t) {
        assert forall|a: int, i: int| 0 <= a < t2.sides.len() && 0 <= i < t2.sides[a].mons.len() implies stages_ok(#[trigger] t2.sides[a].mons[i].boosts) by {
            assert(stages_ok(t.sides[a].mons[i].boosts));
        }
    }
    assert(side_wf(t2.sides[0]));
    assert(side_wf(t2.sides[1]));
}

proof fn lemma_hp_status_keeps(m: MonM, f: Seq<char>)
    ensures
        with_hp_status(m, f).species == m.species,
        with_hp_status(m, f).level == m.level,
        with_hp_status(m, f).boosts == m.boosts,
{
    reveal(with_hp_status);
}

proof fn lemma_zero_stages()
    ensures
        stages_ok(seq![0i8, 0i8, 0i8, 0i8, 0i8, 0i8, 0i8]),
{
}

proof fn lemma_boost_slot_range(name: Seq<char>, j: int)
    requires
        0 <= j,
    ensures
        boost_slot(name, j) matches Some(i) ==> j <= i < 7,
    decreases 7 - j,
{
    if j < 7 && crate::import::boost_names()[j] != name {
        lemma_boost_slot_range(name, j + 1);
    }
}

/// The subject a line resolves names a roster mon.
proof fn lemma_subject_ok(t: TrackerM, f: Seq<char>)
    requires
        tracker_wf(t),
    ensures
        subject_spec(t, f) matches Some((s, m)) ==> s <= 1 && m < t.sides[s as int].mons.len(),
{
    let b = vstd::utf8::encode_utf8(f);
    if b.len() >= 4 && b[0] == 0x70u8 && (b[1] == 0x31u8 || b[1] == 0x32u8) && f.len() >= 2 {
        let side = (b[1] - 0x31) as usize;
        let rest = f.skip(2);
        let rest = if rest.len() > 0 && 'a' <= rest[0] <= 'z' { rest.skip(1) } else { rest };
        lemma_slot_named(t.sides[side as int].mons, rest.skip(2), 0);
    }
}

proof fn lemma_slot_named(mons: Seq<MonM>, n: Seq<char>, i: int)
    requires
        0 <= i,
    ensures
        slot_named(mons, n, i) matches Some(k) ==> k < mons.len(),
    decreases mons.len() - i,
{
    if i < mons.len() && mons[i].name != n {
        lemma_slot_named(mons, n, i + 1);
    }
}


proof fn lemma_hp_line_ok(t: TrackerM, parts: Seq<Seq<char>>)
    requires
        tracker_wf(t),
    ensures
        step_ok(t, hp_line_spec(t, parts)),
{
    reveal(hp_line_spec);
    lemma_subject_ok(t, field(parts, 1));
    match subject_spec(t, field(parts, 1)) {
        Some((s, m)) => {
            lemma_hp_status_keeps(t.sides[s as int].mons[m as int], field(parts, 2));
            lemma_upd_mon_ok(t, s as int, m as int, hp_line_mon(t.sides[s as int].mons[m as int], parts));
        },
        None => {
            lemma_step_refl(t);
        },
    }
}

proof fn lemma_status_line_ok(t: TrackerM, parts: Seq<Seq<char>>)
    requires
        tracker_wf(t),
    ensures
        step_ok(t, status_line_spec(t, parts)),
{
    reveal(status_line_spec);
    lemma_subject_ok(t, field(parts, 1));
    match subject_spec(t, field(parts, 1)) {
        Some((s, m)) => {
            
            lemma_upd_mon_ok(t, s as int, m as int, status_line_mon(t.sides[s as int].mons[m as int], parts));
        },
        None => {
            lemma_step_refl(t);
        },
    }
}

proof fn lemma_curestatus_ok(t: TrackerM, parts: Seq<Seq<char>>)
    requires
        tracker_wf(t),
    ensures
        step_ok(t, curestatus_spec(t, parts)),
{
    reveal(curestatus_spec);
    lemma_subject_ok(t, field(parts, 1));
    match subject_spec(t, field(parts, 1)) {
        Some((s, m)) => {
            
            lemma_upd_mon_ok(t, s as int, m as int, cured(t.sides[s as int].mons[m as int]));
        },
        None => {
            lemma_step_refl(t);
        },
    }
}

proof fn lemma_anim_ok(t: TrackerM, parts: Seq<Seq<char>>)
    requires
        tracker_wf(t),
    ensures
        step_ok(t, anim_spec(t, parts)),
{
    reveal(anim_spec);
    lemma_subject_ok(t, field(parts, 1));
    match subject_spec(t, field(parts, 1)) {
        Some((s, m)) => {
            
            lemma_upd_mon_ok(t, s as int, m as int, MonM { charging: None, ..t.sides[s as int].mons[m as int] });
        },
        None => {
            lemma_step_refl(t);
        },
    }
}

proof fn lemma_mustrecharge_ok(t: TrackerM, parts: Seq<Seq<char>>)
    requires
        tracker_wf(t),
    ensures
        step_ok(t, mustrecharge_spec(t, parts)),
{
    reveal(mustrecharge_spec);
    lemma_subject_ok(t, field(parts, 1));
    match subject_spec(t, field(parts, 1)) {
        Some((s, m)) => {
            
            lemma_upd_mon_ok(t, s as int, m as int, MonM { must_recharge: true, ..t.sides[s as int].mons[m as int] });
        },
        None => {
            lemma_step_refl(t);
        },
    }
}

proof fn lemma_end_ok(t: TrackerM, parts: Seq<Seq<char>>)
    requires
        tracker_wf(t),
    ensures
        step_ok(t, end_spec(t, parts)),
{
    reveal(end_spec);
    lemma_subject_ok(t, field(parts, 1));
    match subject_spec(t, field(parts, 1)) {
        Some((s, m)) => {
            let k = to_id(strip_move(field(parts, 2)));
            let key = if is_bind_key(k) { "partiallytrapped"@ } else { k };
            let mon = t.sides[s as int].mons[m as int];
            lemma_upd_mon_ok(t, s as int, m as int, MonM { vols: vols_without(mon.vols, key), ..mon });
        },
        None => {
            lemma_step_refl(t);
        },
    }
}

proof fn lemma_singleturn_ok(t: TrackerM, parts: Seq<Seq<char>>)
    requires
        tracker_wf(t),
    ensures
        step_ok(t, singleturn_spec(t, parts)),
{
    reveal(singleturn_spec);
    lemma_subject_ok(t, field(parts, 1));
    lemma_step_refl(t);
    match subject_spec(t, field(parts, 1)) {
        Some((s, m)) => {
            let mon = t.sides[s as int].mons[m as int];
            lemma_upd_mon_ok(t, s as int, m as int, MonM { protected_this_turn: true, ..mon });
        },
        None => {},
    }
}

proof fn lemma_singlemove_ok(t: TrackerM, parts: Seq<Seq<char>>)
    requires
        tracker_wf(t),
    ensures
        step_ok(t, singlemove_spec(t, parts)),
{
    reveal(singlemove_spec);
    lemma_subject_ok(t, field(parts, 1));
    lemma_step_refl(t);
    match subject_spec(t, field(parts, 1)) {
        Some((s, m)) => {
            let k = to_id(strip_move(field(parts, 2)));
            let mon = t.sides[s as int].mons[m as int];
            lemma_upd_mon_ok(t, s as int, m as int, MonM { vols: mon.vols.push(vol_now(k, t.turn)), ..mon });
        },
        None => {},
    }
}

proof fn lemma_prepare_ok(dex: TrackerDex, t: TrackerM, parts: Seq<Seq<char>>)
    requires
        tracker_wf(t),
    ensures
        step_ok(t, prepare_spec(dex, t, parts)),
{
    reveal(prepare_spec);
    lemma_subject_ok(t, field(parts, 1));
    lemma_step_refl(t);
    match subject_spec(t, field(parts, 1)) {
        Some((s, m)) => match key_id(dex.moves@, to_id(field(parts, 2)), 0) {
            Some(mid) => {
                let mon = t.sides[s as int].mons[m as int];
                lemma_upd_mon_ok(t, s as int, m as int, MonM { charging: Some(mid), ..mon });
            },
            None => {},
        },
        None => {},
    }
}

proof fn lemma_miss_ok(dex: TrackerDex, t: TrackerM, parts: Seq<Seq<char>>)
    requires
        tracker_wf(t),
    ensures
        step_ok(t, miss_spec(dex, t, parts)),
{
    reveal(miss_spec);
    lemma_subject_ok(t, field(parts, 1));
    lemma_step_refl(t);
    match subject_spec(t, field(parts, 1)) {
        Some((s, m)) => {
            let mon = rollout_unlocked(dex, t.sides[s as int].mons[m as int]);
            lemma_upd_mon_ok(t, s as int, m as int, MonM { vols: vols_without(mon.vols, "furycutter"@), ..mon });
        },
        None => {},
    }
}

proof fn lemma_attacker_ok(dex: TrackerDex, t: TrackerM, s: usize)
    requires
        tracker_wf(t),
        s <= 1,
    ensures
        step_ok(t, attacker_unlocked(dex, t, s)),
{
    lemma_step_refl(t);
    let o = 1 - s;
    match t.sides[o].active {
        Some(a) => {
            lemma_upd_mon_ok(t, o, a as int, rollout_unlocked(dex, t.sides[o].mons[a as int]));
        },
        None => {},
    }
}

proof fn lemma_immune_ok(dex: TrackerDex, t: TrackerM, parts: Seq<Seq<char>>)
    requires
        tracker_wf(t),
    ensures
        step_ok(t, immune_spec(dex, t, parts)),
{
    reveal(immune_spec);
    lemma_subject_ok(t, field(parts, 1));
    lemma_step_refl(t);
    match subject_spec(t, field(parts, 1)) {
        Some((s, _)) => {
            lemma_attacker_ok(dex, t, s);
        },
        None => {},
    }
}

proof fn lemma_cant_ok(t: TrackerM, parts: Seq<Seq<char>>)
    requires
        tracker_wf(t),
    ensures
        step_ok(t, cant_spec(t, parts)),
{
    reveal(cant_spec);
    lemma_subject_ok(t, field(parts, 1));
    lemma_step_refl(t);
    match subject_spec(t, field(parts, 1)) {
        Some((s, m)) => {
            let sd = t.sides[s as int];
            let sd2 = SideM { acted_this_turn: true, mons: sd.mons.update(m as int, cant_mon(sd.mons[m as int], field(parts, 2))), ..sd };
            assert(boosts_ok(t) ==> forall|i: int| 0 <= i < sd2.mons.len() ==> stages_ok(#[trigger] sd2.mons[i].boosts));
            lemma_upd_side_ok(t, s as int, sd2);
        },
        None => {},
    }
}

proof fn lemma_cureteam_ok(t: TrackerM, parts: Seq<Seq<char>>)
    requires
        tracker_wf(t),
    ensures
        step_ok(t, cureteam_spec(t, parts)),
{
    reveal(cureteam_spec);
    lemma_subject_ok(t, field(parts, 1));
    lemma_step_refl(t);
    match subject_spec(t, field(parts, 1)) {
        Some((s, _)) => {
            let sd = t.sides[s as int];
            let sd2 = SideM {
                mons: Seq::new(sd.mons.len(), |j: int| if sd.mons[j].fainted { sd.mons[j] } else { cured(sd.mons[j]) }),
                ..sd
            };
            assert(boosts_ok(t) ==> forall|i: int| 0 <= i < sd2.mons.len() ==> stages_ok(#[trigger] sd2.mons[i].boosts)) by {
                if boosts_ok(t) {
                    assert forall|i: int| 0 <= i < sd2.mons.len() implies stages_ok(#[trigger] sd2.mons[i].boosts) by {
                        assert(stages_ok(t.sides[s as int].mons[i].boosts));
                    }
                }
            }
            lemma_upd_side_ok(t, s as int, sd2);
        },
        None => {},
    }
}

proof fn lemma_faint_ok(t: TrackerM, parts: Seq<Seq<char>>)
    requires
        tracker_wf(t),
    ensures
        step_ok(t, faint_spec(t, parts)),
{
    reveal(faint_spec);
    lemma_subject_ok(t, field(parts, 1));
    lemma_step_refl(t);
    match subject_spec(t, field(parts, 1)) {
        Some((s, m)) => {
            let sd = t.sides[s as int];
            let sd2 = SideM { fainted_this_turn: Some(m), mons: sd.mons.update(m as int, fainted_mon(sd.mons[m as int])), ..sd };
            lemma_zero_stages();
            assert(boosts_ok(t) ==> forall|i: int| 0 <= i < sd2.mons.len() ==> stages_ok(#[trigger] sd2.mons[i].boosts)) by {
                if boosts_ok(t) {
                    assert forall|i: int| 0 <= i < sd2.mons.len() implies stages_ok(#[trigger] sd2.mons[i].boosts) by {
                        if i != m {
                            assert(stages_ok(t.sides[s as int].mons[i].boosts));
                        }
                    }
                }
            }
            lemma_upd_side_ok(t, s as int, sd2);
            let t1 = upd_side(t, s as int, sd2);
            lemma_clear_sourced_ok(t1, (s, m));
            lemma_step_trans(t, t1, clear_sourced(t1, (s, m)));
        },
        None => {},
    }
}

proof fn lemma_boost_ok(t: TrackerM, parts: Seq<Seq<char>>, unboost: bool)
    requires
        tracker_wf(t),
    ensures
        step_ok(t, boost_spec(t, parts, unboost)),
{
    reveal(boost_spec);
    lemma_subject_ok(t, field(parts, 1));
    lemma_boost_slot_range(field(parts, 2), 0);
    lemma_step_refl(t);
    match subject_spec(t, field(parts, 1)) {
        Some((s, m)) => match boost_slot(field(parts, 2), 0) {
            Some(i) => {
                let d = match parse_i8_spec(field(parts, 3)) {
                    Some(v) => v,
                    None => 0i8,
                };
                let mon = t.sides[s as int].mons[m as int];
                let mon2 = boosted_mon(mon, i, d, unboost);
                if boosts_ok(t) {
                    assert(stages_ok(mon.boosts));
                    assert(stages_ok(mon2.boosts));
                }
                lemma_upd_mon_ok(t, s as int, m as int, mon2);
            },
            None => {},
        },
        None => {},
    }
}

proof fn lemma_copyboost_ok(t: TrackerM, parts: Seq<Seq<char>>)
    requires
        tracker_wf(t),
    ensures
        step_ok(t, copyboost_spec(t, parts)),
{
    reveal(copyboost_spec);
    lemma_subject_ok(t, field(parts, 1));
    lemma_subject_ok(t, field(parts, 2));
    lemma_step_refl(t);
    match (subject_spec(t, field(parts, 1)), subject_spec(t, field(parts, 2))) {
        (Some((ts, tm)), Some((ss, sm))) => {
            let mon = t.sides[ts as int].mons[tm as int];
            if boosts_ok(t) {
                assert(stages_ok(t.sides[ss as int].mons[sm as int].boosts));
            }
            lemma_upd_mon_ok(t, ts as int, tm as int, MonM { boosts: t.sides[ss as int].mons[sm as int].boosts, ..mon });
        },
        _ => {},
    }
}

proof fn lemma_transform_ok(t: TrackerM, parts: Seq<Seq<char>>)
    requires
        tracker_wf(t),
    ensures
        step_ok(t, transform_spec(t, parts)),
{
    reveal(transform_spec);
    lemma_subject_ok(t, field(parts, 1));
    lemma_subject_ok(t, field(parts, 2));
    lemma_step_refl(t);
    match (subject_spec(t, field(parts, 1)), subject_spec(t, field(parts, 2))) {
        (Some((s, m)), Some(tgt)) => {
            let mon = t.sides[s as int].mons[m as int];
            if boosts_ok(t) {
                assert(stages_ok(t.sides[tgt.0 as int].mons[tgt.1 as int].boosts));
            }
            lemma_upd_mon_ok(t, s as int, m as int, MonM {
                transformed_into: Some(tgt),
                boosts: t.sides[tgt.0 as int].mons[tgt.1 as int].boosts,
                ..mon
            });
        },
        _ => {},
    }
}

proof fn lemma_clearallboost_ok(t: TrackerM)
    requires
        tracker_wf(t),
    ensures
        step_ok(t, clearallboost_spec(t)),
{
    reveal(clearallboost_spec);
    lemma_zero_stages();
    let t2 = clearallboost_spec(t);
    assert(t2.sides[0] == hazed_side(t.sides[0]));
    assert(t2.sides[1] == hazed_side(t.sides[1]));
    assert forall|a: int, i: int| 0 <= a < t.sides.len() && 0 <= i < t.sides[a].mons.len() implies #[trigger] same_slot(t, t2, a, i) by {}
    assert forall|a: int| 0 <= a < t.sides.len() implies (#[trigger] t2.sides[a]).mons.len() == t.sides[a].mons.len() by {}
    if boosts_ok(t) {
        assert forall|a: int, i: int| 0 <= a < t2.sides.len() && 0 <= i < t2.sides[a].mons.len() implies stages_ok(#[trigger] t2.sides[a].mons[i].boosts) by {
            assert(stages_ok(t.sides[a].mons[i].boosts));
        }
    }
}

proof fn lemma_side_conds_ok(t: TrackerM, t2: TrackerM)
    requires
        tracker_wf(t),
        t2.sides.len() == 2,
        t2.side == t.side,
        forall|a: int| 0 <= a < 2 ==> (#[trigger] t2.sides[a]).mons == t.sides[a].mons && t2.sides[a].active == t.sides[a].active,
    ensures
        step_ok(t, t2),
{
    assert forall|a: int, i: int| 0 <= a < t.sides.len() && 0 <= i < t.sides[a].mons.len() implies #[trigger] same_slot(t, t2, a, i) by {
        assert(t2.sides[a].mons == t.sides[a].mons);
    }
    assert(t2.sides[0].mons == t.sides[0].mons);
    assert(t2.sides[1].mons == t.sides[1].mons);
    if boosts_ok(t) {
        assert forall|a: int, i: int| 0 <= a < t2.sides.len() && 0 <= i < t2.sides[a].mons.len() implies stages_ok(#[trigger] t2.sides[a].mons[i].boosts) by {
            assert(t2.sides[a].mons == t.sides[a].mons);
            assert(stages_ok(t.sides[a].mons[i].boosts));
        }
    }
}

proof fn lemma_sidestart_ok(t: TrackerM, parts: Seq<Seq<char>>)
    requires
        tracker_wf(t),
    ensures
        step_ok(t, sidestart_spec(t, parts)),
        step_ok(t, sideend_spec(t, parts)),
        step_ok(t, weather_spec(t, parts)),
        step_ok(t, TrackerM { upkeep_this_turn: true, ..t }),
{
    reveal(sidestart_spec);
    reveal(sideend_spec);
    reveal(weather_spec);
    lemma_step_refl(t);
    lemma_side_conds_ok(t, sidestart_spec(t, parts));
    lemma_side_conds_ok(t, sideend_spec(t, parts));
    lemma_side_conds_ok(t, weather_spec(t, parts));
    lemma_side_conds_ok(t, TrackerM { upkeep_this_turn: true, ..t });
}

proof fn lemma_turn_ok(t: TrackerM, parts: Seq<Seq<char>>)
    requires
        tracker_wf(t),
    ensures
        step_ok(t, turn_spec(t, parts)),
{
    reveal(turn_spec);
    let t2 = turn_spec(t, parts);
    assert(t2.sides[0] == side_at_turn(t.sides[0], t2.turn));
    assert(t2.sides[1] == side_at_turn(t.sides[1], t2.turn));
    assert forall|a: int, i: int| 0 <= a < t.sides.len() && 0 <= i < t.sides[a].mons.len() implies #[trigger] same_slot(t, t2, a, i) by {}
    assert forall|a: int| 0 <= a < t.sides.len() implies (#[trigger] t2.sides[a]).mons.len() == t.sides[a].mons.len() by {}
    if boosts_ok(t) {
        assert forall|a: int, i: int| 0 <= a < t2.sides.len() && 0 <= i < t2.sides[a].mons.len() implies stages_ok(#[trigger] t2.sides[a].mons[i].boosts) by {
            assert(stages_ok(t.sides[a].mons[i].boosts));
        }
    }
}

proof fn lemma_start_ok(dex: TrackerDex, t: TrackerM, parts: Seq<Seq<char>>)
    requires
        tracker_wf(t),
    ensures
        step_ok(t, start_spec(dex, t, parts)),
{
    reveal(start_spec);
    lemma_subject_ok(t, field(parts, 1));
    lemma_step_refl(t);
    match subject_spec(t, field(parts, 1)) {
        Some((s, m)) => {
            let what = field(parts, 2);
            let mon = t.sides[s as int].mons[m as int];
            let perish = if begins_with(what, "perish"@) { parse_i64_spec(what.skip(6)) } else { None };
            match perish {
                Some(n) => {
                    lemma_upd_mon_ok(t, s as int, m as int, MonM { vols: perish_set(mon.vols, n, t.turn), ..mon });
                },
                None => {
                    let key = to_id(strip_move(what));
                    let mon1 = if key == "confusion"@ { MonM { locked: None, ..mon } } else { mon };
                    lemma_upd_mon_ok(t, s as int, m as int, mon1);
                    let move_id = if key == "encore"@ {
                        mon1.last_move
                    } else if key == "disable"@ {
                        match move_at(dex, parts, 3) {
                            Some(x) => Some(x),
                            None => mon1.last_move,
                        }
                    } else {
                        None
                    };
                    let v = VolM { key, start_turn: t.turn, move_id, source: other_active(t, s), counter: None };
                    lemma_upd_mon_ok(t, s as int, m as int, MonM { vols: mon1.vols.push(v), ..mon1 });
                },
            }
        },
        None => {},
    }
}

proof fn lemma_activate_ok(dex: TrackerDex, t: TrackerM, parts: Seq<Seq<char>>)
    requires
        tracker_wf(t),
    ensures
        step_ok(t, activate_spec(dex, t, parts)),
{
    reveal(activate_spec);
    lemma_subject_ok(t, field(parts, 1));
    lemma_step_refl(t);
    match subject_spec(t, field(parts, 1)) {
        Some((s, m)) => {
            let what = field(parts, 2);
            let mon = t.sides[s as int].mons[m as int];
            lemma_attacker_ok(dex, t, s);
            let v = VolM { key: "trapped"@, start_turn: t.turn, move_id: None, source: other_active(t, s), counter: None };
            lemma_upd_mon_ok(t, s as int, m as int, MonM { vols: mon.vols.push(v), ..mon });
            match move_at(dex, parts, 3) {
                Some(mid) => {
                    lemma_upd_mon_ok(t, s as int, m as int, MonM { uses: berry_restored(mon.uses, mid), ..mon });
                    lemma_upd_mon_ok(t, s as int, m as int, MonM { mimic_overlay: Some(mid), ..mon });
                    let n = if 4 < parts.len() { parse_i32_spec(parts[4]) } else { None };
                    match n {
                        Some(n) => {
                            lemma_upd_mon_ok(t, s as int, m as int, MonM { uses: spited(mon.uses, mid, n), ..mon });
                        },
                        None => {},
                    }
                },
                None => {},
            }
            let key = to_id(what.skip(6));
            let source = match first_stripped(parts, "[of] "@, 0) {
                Some(of) => subject_spec(t, of),
                None => None,
            };
            let v2 = VolM {
                key: "partiallytrapped"@,
                start_turn: t.turn,
                move_id: key_id(dex.moves@, key, 0),
                source,
                counter: None,
            };
            lemma_upd_mon_ok(t, s as int, m as int, MonM { vols: mon.vols.push(v2), ..mon });
        },
        None => {},
    }
}

proof fn lemma_move_ok(dex: TrackerDex, t: TrackerM, parts: Seq<Seq<char>>)
    requires
        tracker_wf(t),
    ensures
        step_ok(t, move_spec(dex, t, parts)),
{
    reveal(move_spec);
    lemma_subject_ok(t, field(parts, 1));
    lemma_step_refl(t);
    match subject_spec(t, field(parts, 1)) {
        Some((s, m)) => {
            let sd = t.sides[s as int];
            match key_id(dex.moves@, to_id(field(parts, 2)), 0) {
                None => {
                    let sd2 = SideM { acted_this_turn: true, ..sd };
                    assert(sd2.mons == sd.mons);
                    lemma_upd_side_ok(t, s as int, sd2);
                },
                Some(mid) => {
                    let key = move_key(dex, mid);
                    let called = match first_stripped(parts, "[from] "@, 0) {
                        Some(n) => to_id(strip_move(n)) != key,
                        None => false,
                    };
                    let mon0 = sd.mons[m as int];
                    let mon1 = MonM { last_move: Some(mid), vols: expired_on_move(mon0.vols, key), ..mon0 };
                    let mon2 = if called || key == "struggle"@ || key == "recharge"@ {
                        mon1
                    } else {
                        used_mon(mon1, mid, key, t.turn)
                    };
                    assert(mon2.species == mon0.species && mon2.level == mon0.level && mon2.boosts == mon0.boosts);
                    let sd2 = SideM {
                        acted_this_turn: true,
                        side_last_move: Some(mid),
                        pending_bp: if key == "batonpass"@ { true } else { sd.pending_bp },
                        mons: sd.mons.update(m as int, mon2),
                        ..sd
                    };
                    assert(boosts_ok(t) ==> forall|i: int| 0 <= i < sd2.mons.len() ==> stages_ok(#[trigger] sd2.mons[i].boosts)) by {
                        if boosts_ok(t) {
                            assert forall|i: int| 0 <= i < sd2.mons.len() implies stages_ok(#[trigger] sd2.mons[i].boosts) by {
                                assert(stages_ok(t.sides[s as int].mons[i].boosts));
                            }
                        }
                    }
                    lemma_upd_side_ok(t, s as int, sd2);
                },
            }
        },
        None => {},
    }
}

proof fn lemma_switched_in_keeps(inc: MonM, inherit: Option<(Seq<i8>, Seq<VolM>, Option<i32>, bool, bool)>, turn: u16, hp: Seq<char>)
    ensures
        switched_in(inc, inherit, turn, hp).species == inc.species,
        switched_in(inc, inherit, turn, hp).level == inc.level,
        switched_in(inc, inherit, turn, hp).boosts == match inherit {
            Some(c) => c.0,
            None => inc.boosts,
        },
{
    lemma_hp_status_keeps(with_carried(entered(inc, turn), inherit), hp);
}

#[verifier::spinoff_prover]
proof fn lemma_switch_ok(dex: TrackerDex, t: TrackerM, parts: Seq<Seq<char>>, is_drag: bool)
    requires
        tracker_wf(t),
    ensures
        step_ok(t, switch_spec(dex, t, parts, is_drag)),
{
    reveal(switch_spec);
    lemma_step_refl(t);
    let subj = field(parts, 1);
    match side_subject(subj) {
        None => {},
        Some(side) => match details_spec(dex.species@, field(parts, 2)) {
            None => {},
            Some((sp, lv, _)) => {
                lemma_slot_of(t.sides[side as int].mons, sp, lv, 0);
                match slot_of(t.sides[side as int].mons, sp, lv, 0) {
                    None => {},
                    Some(slot) => {
                        assert(side <= 1) by {
                            let b = vstd::utf8::encode_utf8(subj);
                            assert(b[1] == 0x31u8 || b[1] == 0x32u8);
                        }
                        let inherit = switch_inherit(dex, t, side, slot, subj, is_drag);
                        let sd0 = t.sides[side as int];
                        let sd1 = switch_named(sd0, slot, subj);
                        assert(sd1.mons.len() == sd0.mons.len());
                        assert(forall|i: int| 0 <= i < sd1.mons.len() ==> (#[trigger] sd1.mons[i]).species == sd0.mons[i].species && sd1.mons[i].level == sd0.mons[i].level && sd1.mons[i].boosts == sd0.mons[i].boosts);
                        let t2 = switch_out(t, side, slot, subj);
                        if switch_leaves(sd1, slot) {
                            let o = sd1.active.unwrap();
                            let gone = cleared_on_exit(MonM { active: false, ..sd1.mons[o as int] });
                            let sdx = SideM { mons: sd1.mons.update(o as int, gone), ..sd1 };
                            lemma_zero_stages();
                            assert(boosts_ok(t) ==> forall|i: int| 0 <= i < sdx.mons.len() ==> stages_ok(#[trigger] sdx.mons[i].boosts)) by {
                                if boosts_ok(t) {
                                    assert forall|i: int| 0 <= i < sdx.mons.len() implies stages_ok(#[trigger] sdx.mons[i].boosts) by {
                                        if i != o {
                                            assert(stages_ok(t.sides[side as int].mons[i].boosts));
                                        }
                                    }
                                }
                            }
                            lemma_upd_side_ok(t, side as int, sdx);
                            let t1 = upd_side(t, side as int, sdx);
                            lemma_clear_sourced_ok(t1, (side, o));
                            lemma_step_trans(t, t1, t2);
                            if boosts_ok(t) && inherit is Some {
                                assert(stages_ok(t.sides[side as int].mons[o as int].boosts));
                            }
                        } else {
                            lemma_upd_side_ok(t, side as int, sd1);
                        }
                        assert(step_ok(t, t2));
                        let sd2 = t2.sides[side as int];
                        let inc = switched_in(sd2.mons[slot], inherit, t.turn, field(parts, 3));
                        lemma_switched_in_keeps(sd2.mons[slot], inherit, t.turn, field(parts, 3));
                        assert(same_slot(t, t2, side as int, slot));
                        let sd3 = SideM {
                            pending_bp: false,
                            acted_this_turn: true,
                            active: Some(slot as usize),
                            mons: sd2.mons.update(slot, inc),
                            ..sd2
                        };
                        lemma_upd_side_roster(t2, side as int, sd3);
                        if boosts_ok(t) {
                            assert(boosts_ok(t2));
                            assert forall|i: int| 0 <= i < sd3.mons.len() implies stages_ok(#[trigger] sd3.mons[i].boosts) by {
                                assert(stages_ok(t2.sides[side as int].mons[i].boosts));
                            }
                            lemma_upd_side_ok(t2, side as int, sd3);
                        }
                        lemma_roster_trans(t, t2, upd_side(t2, side as int, sd3));
                    },
                }
            },
        },
    }
}

/// The preview line adds one mon at the end of one side's roster.
proof fn lemma_poke_ok(dex: TrackerDex, t: TrackerM, parts: Seq<Seq<char>>)
    requires
        tracker_wf(t),
    ensures
        roster_kept(t, poke_spec(dex, t, parts)),
        tracker_wf(poke_spec(dex, t, parts)),
        boosts_ok(t) ==> boosts_ok(poke_spec(dex, t, parts)),
        forall|s: int| 0 <= s < 2 ==> {
            let n2 = (#[trigger] poke_spec(dex, t, parts).sides[s]).mons.len();
            n2 == t.sides[s].mons.len() || n2 == t.sides[s].mons.len() + 1
        },
{
    reveal(poke_spec);
    lemma_step_refl(t);
    let t2 = poke_spec(dex, t, parts);
    match side_subject(field(parts, 1)) {
        None => {},
        Some(side) => {
            assert(side <= 1) by {
                let b = vstd::utf8::encode_utf8(field(parts, 1));
                assert(b[1] == 0x31u8 || b[1] == 0x32u8);
            }
            match details_spec(dex.species@, field(parts, 2)) {
                None => {},
                Some((sp, lv, g)) => {
                    lemma_zero_stages();
                    assert forall|a: int, i: int| 0 <= a < t.sides.len() && 0 <= i < t.sides[a].mons.len() implies #[trigger] same_slot(t, t2, a, i) by {}
                    if boosts_ok(t) {
                        assert forall|a: int, i: int| 0 <= a < t2.sides.len() && 0 <= i < t2.sides[a].mons.len() implies stages_ok(#[trigger] t2.sides[a].mons[i].boosts) by {
                            if !(a == side && i == t.sides[a].mons.len()) {
                                assert(stages_ok(t.sides[a].mons[i].boosts));
                            }
                        }
                    }
                },
            }
        },
    }
}

/// The step every non-preview command takes.
proof fn lemma_command_ok(dex: TrackerDex, t: TrackerM, line: Seq<char>)
    requires
        tracker_wf(t),
        !is_preview_line(line),
    ensures
        step_ok(t, push_line_spec(dex, t, line)),
{
    reveal(push_line_spec);
    lemma_step_refl(t);
    if begins_with(line, "|"@) {
        let parts = split_spec(line.skip(1), '|');
        lemma_turn_ok(t, parts);
        lemma_sidestart_ok(t, parts);
        lemma_switch_ok(dex, t, parts, false);
        lemma_switch_ok(dex, t, parts, true);
        lemma_faint_ok(t, parts);
        lemma_move_ok(dex, t, parts);
        lemma_cant_ok(t, parts);
        lemma_hp_line_ok(t, parts);
        lemma_status_line_ok(t, parts);
        lemma_curestatus_ok(t, parts);
        lemma_cureteam_ok(t, parts);
        lemma_boost_ok(t, parts, false);
        lemma_boost_ok(t, parts, true);
        lemma_copyboost_ok(t, parts);
        lemma_clearallboost_ok(t);
        lemma_start_ok(dex, t, parts);
        lemma_end_ok(t, parts);
        lemma_activate_ok(dex, t, parts);
        lemma_singleturn_ok(t, parts);
        lemma_singlemove_ok(t, parts);
        lemma_prepare_ok(dex, t, parts);
        lemma_anim_ok(t, parts);
        lemma_transform_ok(t, parts);
        lemma_mustrecharge_ok(t, parts);
        lemma_miss_ok(dex, t, parts);
        lemma_immune_ok(dex, t, parts);
    }
}

/// Law: whatever protocol line the tracker reads, every roster slot stays,
/// with the same species and level (so a nickname, once learned, keeps
/// naming the same mon); a side's roster grows only through a team-preview
/// `|poke|` line, by one mon at its end.
pub proof fn lemma_roster_slots_are_stable(dex: TrackerDex, t: TrackerM, line: Seq<char>)
    requires
        tracker_wf(t),
    ensures
        roster_kept(t, push_line_spec(dex, t, line)),
        tracker_wf(push_line_spec(dex, t, line)),
        forall|s: int| 0 <= s < 2 ==> {
            let n2 = (#[trigger] push_line_spec(dex, t, line).sides[s]).mons.len();
            n2 == t.sides[s].mons.len() || (is_preview_line(line) && n2 == t.sides[s].mons.len() + 1)
        },
{
    if is_preview_line(line) {
        reveal(push_line_spec);
        lemma_poke_ok(dex, t, split_spec(line.skip(1), '|'));
    } else {
        lemma_command_ok(dex, t, line);
        let t2 = push_line_spec(dex, t, line);
        assert(t2.sides[0].mons.len() == t.sides[0].mons.len());
        assert(t2.sides[1].mons.len() == t.sides[1].mons.len());
    }
}

/// Law: boost stages stay within -6..=6: a tracker whose stages are all in
/// range keeps them in range through any protocol line.
pub proof fn lemma_boost_stages_stay_in_range(dex: TrackerDex, t: TrackerM, line: Seq<char>)
    requires
        tracker_wf(t),
        boosts_ok(t),
    ensures
        boosts_ok(push_line_spec(dex, t, line)),
{
    if is_preview_line(line) {
        reveal(push_line_spec);
        lemma_poke_ok(dex, t, split_spec(line.skip(1), '|'));
    } else {
        lemma_command_ok(dex, t, line);
    }
}

/// Law: a `|move|` line marks PP at most once, and not at all when the
/// move was called by another, is Struggle or a recharge, releases the
/// mon's pending charge of that move, continues its lock on it, or is used
/// while the mon is Transformed.
pub proof fn lemma_move_marks_pp_at_most_once(dex: TrackerDex, t: TrackerM, parts: Seq<Seq<char>>, s: usize, m: usize, mid: usize)
    requires
        tracker_wf(t),
        subject_spec(t, field(parts, 1)) == Some((s, m)),
        key_id(dex.moves@, to_id(field(parts, 2)), 0) == Some(mid),
    ensures
        ({
            let mon = t.sides[s as int].mons[m as int];
            let u2 = move_spec(dex, t, parts).sides[s as int].mons[m as int].uses;
            let key = move_key(dex, mid);
            let called = match first_stripped(parts, "[from] "@, 0) {
                Some(n) => to_id(strip_move(n)) != key,
                None => false,
            };
            let continues = match mon.locked {
                Some((lm, _)) => lm == mid,
                None => false,
            };
            &&& (u2 == mon.uses || u2 == deducted(mon.uses, mid))
            &&& (called || key == "struggle"@ || key == "recharge"@ || mon.charging == Some(mid) || continues
                || mon.transformed_into is Some) ==> u2 == mon.uses
        }),
{
    reveal(move_spec);
    lemma_subject_ok(t, field(parts, 1));
}

/// Law: a `|-singlemove|` line naming Rage or Destiny Bond for a tracked
/// mon starts that volatile on the mon, stamped with the current turn; the
/// volatile starts once, so a mon already under it keeps its volatiles as
/// they were.
pub proof fn lemma_singlemove_starts_volatile(dex: TrackerDex, t: TrackerM, line: Seq<char>, s: usize, m: usize)
    requires
        tracker_wf(t),
        begins_with(line, "|"@),
        field(split_spec(line.skip(1), '|'), 0) == "-singlemove"@,
        subject_spec(t, field(split_spec(line.skip(1), '|'), 1)) == Some((s, m)),
    ensures
        ({
            let parts = split_spec(line.skip(1), '|');
            let k = to_id(strip_move(field(parts, 2)));
            let before = t.sides[s as int].mons[m as int].vols;
            let after = push_line_spec(dex, t, line).sides[s as int].mons[m as int].vols;
            &&& (k == "rage"@ || k == "destinybond"@) && !has_vol(before, k) ==> exists|i: int|
                0 <= i < after.len() && (#[trigger] after[i]).key == k && after[i].start_turn == t.turn
            &&& (k == "rage"@ || k == "destinybond"@) ==> forall|i: int| 0 <= i < before.len() ==> after[i] == #[trigger] before[i]
            &&& has_vol(before, k) ==> after == before
        }),
{
    reveal(push_line_spec);
    reveal(singlemove_spec);
    reveal_strlit("-singlemove");
    reveal_strlit("poke");
    reveal_strlit("turn");
    reveal_strlit("upkeep");
    reveal_strlit("switch");
    reveal_strlit("drag");
    reveal_strlit("faint");
    reveal_strlit("move");
    reveal_strlit("cant");
    reveal_strlit("-damage");
    reveal_strlit("-heal");
    reveal_strlit("-sethp");
    reveal_strlit("-status");
    reveal_strlit("-curestatus");
    reveal_strlit("-cureteam");
    reveal_strlit("-boost");
    reveal_strlit("-unboost");
    reveal_strlit("-copyboost");
    reveal_strlit("-clearallboost");
    reveal_strlit("-start");
    reveal_strlit("-end");
    reveal_strlit("-activate");
    reveal_strlit("-singleturn");
    let parts = split_spec(line.skip(1), '|');
    let cmd = field(parts, 0);
    assert(cmd.len() == 11);
    assert("poke"@.len() == 4 && "turn"@.len() == 4 && "upkeep"@.len() == 6 && "switch"@.len() == 6);
    assert("drag"@.len() == 4 && "faint"@.len() == 5 && "move"@.len() == 4 && "cant"@.len() == 4);
    assert("-damage"@.len() == 7 && "-heal"@.len() == 5 && "-sethp"@.len() == 6 && "-status"@.len() == 7);
    assert("-cureteam"@.len() == 9 && "-boost"@.len() == 6 && "-unboost"@.len() == 8);
    assert("-copyboost"@.len() == 10 && "-clearallboost"@.len() == 14 && "-start"@.len() == 6);
    assert("-end"@.len() == 4 && "-activate"@.len() == 9);
    assert(cmd[1] == 's' && "-curestatus"@[1] == 'c');
    assert(cmd != "-curestatus"@);
    assert(cmd[8] == 'o' && "-singleturn"@[8] == 'u');
    assert(cmd != "-singleturn"@);
    assert(push_line_spec(dex, t, line) == singlemove_spec(t, parts));
    lemma_subject_ok(t, field(parts, 1));
    let k = to_id(strip_move(field(parts, 2)));
    let mon = t.sides[s as int].mons[m as int];
    let after = push_line_spec(dex, t, line).sides[s as int].mons[m as int].vols;
    if (k == "rage"@ || k == "destinybond"@) && !has_vol(mon.vols, k) {
        assert(after == mon.vols.push(vol_now(k, t.turn)));
        assert(after[mon.vols.len() as int].key == k);
        assert(after[mon.vols.len() as int].start_turn == t.turn);
    } else {
        assert(push_line_spec(dex, t, line) == t);
        assert(after == mon.vols);
    }
}

} // verus!
