//! The two baseline agents: uniform random and the max-damage heuristic.
//! Baselines calibrate search agents: any search worth keeping must beat
//! max-damage, and max-damage must beat random.
//!
//! An agent here sees a decision point through plain values: the legal
//! choices, and (for max-damage) one ordering key per move choice plus the
//! HP of each party position.

use vstd::prelude::*;

use crate::rng::{advance, mix, SplitMix64};

verus! {

/// One legal decision of a side: a team-preview order (party positions,
/// 1-based), a move by id, a switch to a party position (1-based), or pass.
#[derive(Clone, Copy, Debug)]
pub enum SearchChoice {
    Team([u8; 3]),
    Move(u16),
    Switch(u8),
    Pass,
}

/// `a == b` on choices.
pub fn same_choice(a: &SearchChoice, b: &SearchChoice) -> (r: bool)
    ensures
        r == (*a == *b),
{
    match (a, b) {
        (SearchChoice::Team(x), SearchChoice::Team(y)) => {
            let r = x[0] == y[0] && x[1] == y[1] && x[2] == y[2];
            proof {
                if r {
                    assert(*x =~= *y);
                }
            }
            r
        },
        (SearchChoice::Move(x), SearchChoice::Move(y)) => *x == *y,
        (SearchChoice::Switch(x), SearchChoice::Switch(y)) => *x == *y,
        (SearchChoice::Pass, SearchChoice::Pass) => true,
        _ => false,
    }
}

/// `choices.contains(c)`.
pub fn contains_choice(choices: &[SearchChoice], c: &SearchChoice) -> (r: bool)
    ensures
        r == choices@.contains(*c),
{
    for i in 0..choices.len()
        invariant
            forall|j: int| 0 <= j < i ==> choices@[j] != *c,
    {
        if same_choice(&choices[i], c) {
            return true;
        }
    }
    false
}

// ---------------------------------------------------------------- random

/// Uniform over the legal choices, on its own SplitMix64 stream.
#[derive(Debug)]
pub struct RandomAgent {
    rng: SplitMix64,
}

impl RandomAgent {
    /// The state of the agent's generator.
    pub closed spec fn state(&self) -> u64 {
        self.rng.0
    }

    pub fn new(seed: u64) -> (a: Self)
        ensures
            a.state() == seed,
    {
        RandomAgent { rng: SplitMix64::new(seed) }
    }

    pub fn name(&self) -> (s: String)
        ensures
            s@ == "random"@,
    {
        String::from_str("random")
    }

    /// The choice at index `below(len)` of the next draw.
    pub fn choose_action(&mut self, choices: &[SearchChoice]) -> (c: SearchChoice)
        requires
            choices.len() > 0,
        ensures
            final(self).state() == advance(old(self).state()),
            c == choices@[mix(final(self).state()) as int % choices.len() as int],
            choices@.contains(c),
    {
        let i = self.rng.below(choices.len());
        assert(choices@[i as int] == choices[i as int]);
        choices[i]
    }
}

// ------------------------------------------------------------ max damage

/// How a move's type meets one defender type.
#[derive(Clone, Copy, Debug)]
pub enum Effectiveness {
    Immune,
    Super,
    NotVery,
    Neutral,
}

/// The static damage estimate of the frozen baseline, times 8 so that it is
/// an integer: 0 for a status move or when a defender type is immune, else
/// `base_power x STAB x type multiplier` with STAB 1.5 and each super
/// effective type doubling, each resisted one halving.
pub open spec fn static_score8(status: bool, base_power: int, stab: bool, effs: Seq<Effectiveness>) -> int
    decreases effs.len(),
{
    if status {
        0
    } else if effs.len() == 0 {
        base_power * (if stab { 12int } else { 8int })
    } else {
        let rest = static_score8(status, base_power, stab, effs.drop_last());
        match effs.last() {
            Effectiveness::Immune => 0,
            Effectiveness::Super => rest * 2,
            Effectiveness::NotVery => rest / 2,
            Effectiveness::Neutral => rest,
        }
    }
}

/// The frozen M5 move score (times 8). A defender has at most two types, so
/// the halvings stay exact.
pub fn static_move_score8(status: bool, base_power: u16, stab: bool, effs: &[Effectiveness]) -> (r: u64)
    requires
        effs.len() <= 2,
    ensures
        r == static_score8(status, base_power as int, stab, effs@),
{
    if status {
        return 0;
    }
    let mut score: u64 = base_power as u64 * (if stab { 12 } else { 8 });
    let mut i: usize = 0;
    while i < effs.len()
        invariant
            effs.len() <= 2,
            i <= effs.len(),
            score == static_score8(status, base_power as int, stab, effs@.take(i as int)),
            i == 0 ==> score <= 0xffff * 12,
            i == 1 ==> score <= 0xffff * 24,
            score <= 0xffff * 48,
        decreases effs.len() - i,
    {
        assert(effs@.take(i + 1).drop_last() =~= effs@.take(i as int));
        match effs[i] {
            Effectiveness::Immune => {
                score = 0;
            },
            Effectiveness::Super => {
                score = score * 2;
            },
            Effectiveness::NotVery => {
                score = score / 2;
            },
            Effectiveness::Neutral => {},
        }
        i = i + 1;
    }
    assert(effs@.take(effs.len() as int) =~= effs@);
    score
}

/// The key under which `f64::total_cmp` orders a float, given its bits:
/// comparing keys as unsigned integers orders the floats as `total_cmp`.
pub open spec fn total_order_key_spec(bits: u64) -> u64 {
    if bits >= 0x8000_0000_0000_0000 {
        (0xffff_ffff_ffff_ffff - bits) as u64
    } else {
        (bits + 0x8000_0000_0000_0000) as u64
    }
}

/// `f64::total_cmp` as an unsigned key on the float's bits.
pub fn total_order_key(bits: u64) -> (k: u64)
    ensures
        k == total_order_key_spec(bits),
{
    if bits >= 0x8000_0000_0000_0000 {
        0xffff_ffff_ffff_ffff - bits
    } else {
        bits + 0x8000_0000_0000_0000
    }
}

/// What the max-damage policy reads of one decision point.
#[derive(Debug)]
pub struct DecisionView {
    /// Both actives are on the field.
    pub actives: bool,
    /// One score key per choice (only those of move choices are read).
    pub move_keys: Vec<u64>,
    /// `(hp, maxhp)` of each party position, position 1 first.
    pub party_hp: Vec<(u16, u16)>,
}

/// The HP fraction a choice is ranked by on a forced switch, as
/// `(numerator, denominator)`: the party member's HP for a switch, -1 else.
pub open spec fn switch_rank(view: DecisionView, c: SearchChoice) -> (int, int) {
    match c {
        SearchChoice::Switch(pos) => (view.party_hp@[pos as int - 1].0 as int, view.party_hp@[pos as int - 1].1 as int),
        _ => (-1, 1),
    }
}

/// `a <= b` on fractions with positive denominators.
pub open spec fn frac_le(a: (int, int), b: (int, int)) -> bool {
    a.0 * b.1 <= b.0 * a.1
}

/// Every switch choice names a party position whose max HP is positive.
pub open spec fn view_covers(view: DecisionView, choices: Seq<SearchChoice>) -> bool {
    &&& view.move_keys@.len() == choices.len()
    &&& forall|i: int|
        0 <= i < choices.len() ==> match #[trigger] choices[i] {
            SearchChoice::Switch(pos) => 1 <= pos <= view.party_hp@.len() && view.party_hp@[pos as int - 1].1 > 0,
            _ => true,
        }
}

/// `r` is the last index holding a greatest switch rank.
pub open spec fn is_last_best_switch(view: DecisionView, choices: Seq<SearchChoice>, r: int) -> bool {
    &&& 0 <= r < choices.len()
    &&& forall|j: int| 0 <= j < choices.len() ==> frac_le(switch_rank(view, #[trigger] choices[j]), switch_rank(view, choices[r]))
    &&& forall|j: int| r < j < choices.len() ==> !frac_le(switch_rank(view, choices[r]), switch_rank(view, #[trigger] choices[j]))
}

/// `r` is the last move choice holding a greatest key.
pub open spec fn is_last_best_move(view: DecisionView, choices: Seq<SearchChoice>, r: int) -> bool {
    &&& 0 <= r < choices.len()
    &&& choices[r] is Move
    &&& forall|j: int| 0 <= j < choices.len() && (#[trigger] choices[j]) is Move ==> view.move_keys@[j] <= view.move_keys@[r]
    &&& forall|j: int| r < j < choices.len() && (#[trigger] choices[j]) is Move ==> view.move_keys@[j] < view.move_keys@[r]
}

pub open spec fn has_move(choices: Seq<SearchChoice>) -> bool {
    exists|i: int| 0 <= i < choices.len() && (#[trigger] choices[i]) is Move
}

/// Static damage estimate: strongest hit, no voluntary switches, the
/// builder's order at team preview, the healthiest bench member on a
/// forced switch.
#[derive(Debug)]
pub struct MaxDamageAgent {
    /// `false`: the frozen static model; `true`: the conformance-gated
    /// expected-hit estimate. The model only decides the move keys.
    conformant: bool,
}

impl MaxDamageAgent {
    pub closed spec fn is_conformant(&self) -> bool {
        self.conformant
    }

    /// The frozen baseline.
    pub fn new() -> (a: Self)
        ensures
            !a.is_conformant(),
    {
        MaxDamageAgent { conformant: false }
    }

    /// Same policy, move keys from the conformance-gated estimate.
    pub fn conformant() -> (a: Self)
        ensures
            a.is_conformant(),
    {
        MaxDamageAgent { conformant: true }
    }

    pub fn uses_conformant_model(&self) -> (r: bool)
        ensures
            r == self.is_conformant(),
    {
        self.conformant
    }

    pub fn name(&self) -> (s: String)
        ensures
            s@ == (if self.is_conformant() { "greedy"@ } else { "maxdamage"@ }),
    {
        if self.conformant {
            String::from_str("greedy")
        } else {
            String::from_str("maxdamage")
        }
    }

    /// At team preview `[1, 2, 3]` when legal, else the first choice; with
    /// no move choice, the last switch to the healthiest party member (a
    /// non-switch ranks below every switch); otherwise the last move with
    /// the greatest key, or the first choice when an active is missing.
    pub fn choose_action(&self, choices: &[SearchChoice], view: &DecisionView) -> (c: SearchChoice)
        requires
            choices.len() > 0,
            view_covers(*view, choices@),
        ensures
            choices@[0] is Team ==> c == (if choices@.contains(SearchChoice::Team([1u8, 2u8, 3u8])) {
                SearchChoice::Team([1u8, 2u8, 3u8])
            } else {
                choices@[0]
            }),
            !(choices@[0] is Team) && !has_move(choices@) ==> exists|r: int|
                is_last_best_switch(*view, choices@, r) && c == choices@[r],
            !(choices@[0] is Team) && has_move(choices@) && !view.actives ==> c == choices@[0],
            !(choices@[0] is Team) && has_move(choices@) && view.actives ==> exists|r: int|
                is_last_best_move(*view, choices@, r) && c == choices@[r],
            choices@.contains(c),
    {
        if let SearchChoice::Team(_) = choices[0] {
            let default = SearchChoice::Team([1, 2, 3]);
            if contains_choice(choices, &default) {
                return default;
            } else {
                assert(choices@[0] == choices[0]);
                return choices[0];
            }
        }
        let mut first_move: Option<usize> = None;
        for i in 0..choices.len()
            invariant
                first_move is None ==> forall|j: int| 0 <= j < i ==> !((#[trigger] choices@[j]) is Move),
                first_move matches Some(k) ==> k < choices.len() && choices@[k as int] is Move
                    && forall|j: int| 0 <= j < k ==> !((#[trigger] choices@[j]) is Move),
        {
            if first_move.is_none() {
                if let SearchChoice::Move(_) = choices[i] {
                    first_move = Some(i);
                }
            }
        }
        match first_move {
            None => {
                let r = best_switch(choices, view);
                assert(choices@[r as int] == choices[r as int]);
                choices[r]
            },
            Some(k) => {
                if !view.actives {
                    assert(choices@[0] == choices[0]);
                    return choices[0];
                }
                let r = best_move(choices, view, k);
                assert(choices@[r as int] == choices[r as int]);
                choices[r]
            },
        }
    }
}

impl Default for MaxDamageAgent {
    fn default() -> (a: Self)
        ensures
            !a.is_conformant(),
    {
        Self::new()
    }
}

fn rank_of(view: &DecisionView, c: &SearchChoice) -> (r: (i64, i64))
    requires
        match *c {
            SearchChoice::Switch(pos) => 1 <= pos <= view.party_hp@.len() && view.party_hp@[pos as int - 1].1 > 0,
            _ => true,
        },
    ensures
        r.0 == switch_rank(*view, *c).0,
        r.1 == switch_rank(*view, *c).1,
        -1 <= r.0 <= 0xffff,
        1 <= r.1 <= 0xffff,
{
    match c {
        SearchChoice::Switch(pos) => {
            let (hp, maxhp) = view.party_hp[*pos as usize - 1];
            (hp as i64, maxhp as i64)
        },
        _ => (-1, 1),
    }
}

fn frac_le_exec(a: (i64, i64), b: (i64, i64)) -> (r: bool)
    requires
        -1 <= a.0 <= 0xffff,
        1 <= a.1 <= 0xffff,
        -1 <= b.0 <= 0xffff,
        1 <= b.1 <= 0xffff,
    ensures
        r == frac_le((a.0 as int, a.1 as int), (b.0 as int, b.1 as int)),
{
    proof {
        assert(-0x1_0000_0000 <= a.0 * b.1 <= 0x1_0000_0000) by (nonlinear_arith)
            requires
                -1 <= a.0 <= 0xffff,
                1 <= b.1 <= 0xffff,
        ;
        assert(-0x1_0000_0000 <= b.0 * a.1 <= 0x1_0000_0000) by (nonlinear_arith)
            requires
                -1 <= b.0 <= 0xffff,
                1 <= a.1 <= 0xffff,
        ;
    }
    a.0 * b.1 <= b.0 * a.1
}

/// `frac_le` is a total preorder on fractions with positive denominators.
proof fn lemma_frac_le_order(a: (int, int), b: (int, int), c: (int, int))
    requires
        a.1 > 0,
        b.1 > 0,
        c.1 > 0,
    ensures
        frac_le(a, b) || frac_le(b, a),
        frac_le(a, b) && frac_le(b, c) ==> frac_le(a, c),
        frac_le(a, a),
{
    assert(frac_le(a, b) && frac_le(b, c) ==> frac_le(a, c)) by (nonlinear_arith)
        requires
            a.1 > 0,
            b.1 > 0,
            c.1 > 0,
    ;
}

fn best_switch(choices: &[SearchChoice], view: &DecisionView) -> (r: usize)
    requires
        choices.len() > 0,
        view_covers(*view, choices@),
    ensures
        is_last_best_switch(*view, choices@, r as int),
{
    let mut best: usize = 0;
    let mut best_rank = rank_of(view, &choices[0]);
    for i in 1..choices.len()
        invariant
            view_covers(*view, choices@),
            best < i <= choices.len(),
            best_rank.0 == switch_rank(*view, choices@[best as int]).0,
            best_rank.1 == switch_rank(*view, choices@[best as int]).1,
            -1 <= best_rank.0 <= 0xffff,
            1 <= best_rank.1 <= 0xffff,
            forall|j: int| 0 <= j < i ==> frac_le(switch_rank(*view, #[trigger] choices@[j]), switch_rank(*view, choices@[best as int])),
            forall|j: int| best < j < i ==> !frac_le(switch_rank(*view, choices@[best as int]), switch_rank(*view, #[trigger] choices@[j])),
    {
        let c = choices[i];
        assert(choices@[i as int] == c);
        let rank = rank_of(view, &c);
        if frac_le_exec(best_rank, rank) {
            proof {
                let nb = switch_rank(*view, c);
                assert forall|j: int| 0 <= j < i + 1 implies frac_le(switch_rank(*view, #[trigger] choices@[j]), nb) by {
                    if j < i {
                        let sj = switch_rank(*view, choices@[j]);
                        assert(view_covers(*view, choices@));
                        assert(sj.1 > 0);
                        lemma_frac_le_order(sj, switch_rank(*view, choices@[best as int]), nb);
                    } else {
                        lemma_frac_le_order(nb, nb, nb);
                    }
                }
            }
            best = i;
            best_rank = rank;
        } else {
            proof {
                lemma_frac_le_order(switch_rank(*view, choices@[best as int]), switch_rank(*view, c), switch_rank(*view, c));
            }
        }
    }
    best
}

fn best_move(choices: &[SearchChoice], view: &DecisionView, first: usize) -> (r: usize)
    requires
        first < choices.len(),
        choices@[first as int] is Move,
        forall|j: int| 0 <= j < first ==> !((#[trigger] choices@[j]) is Move),
        view_covers(*view, choices@),
    ensures
        is_last_best_move(*view, choices@, r as int),
{
    let mut best: usize = first;
    for i in first + 1..choices.len()
        invariant
            view_covers(*view, choices@),
            first <= best < i <= choices.len(),
            choices@[best as int] is Move,
            forall|j: int| 0 <= j < first ==> !((#[trigger] choices@[j]) is Move),
            forall|j: int| 0 <= j < i && (#[trigger] choices@[j]) is Move ==> view.move_keys@[j] <= view.move_keys@[best as int],
            forall|j: int| best < j < i && (#[trigger] choices@[j]) is Move ==> view.move_keys@[j] < view.move_keys@[best as int],
    {
        if let SearchChoice::Move(_) = choices[i] {
            if view.move_keys[i] >= view.move_keys[best] {
                best = i;
            }
        }
    }
    best
}

} // verus!
