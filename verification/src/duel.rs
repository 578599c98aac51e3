//! Seed-paired duels: the schedule of games between two agents and the
//! tally of their results.
//!
//! Each pairing is played twice with sides swapped on the same battle
//! seed; agent seeds derive from the game index only, so results are fully
//! deterministic for a given base seed whatever the number of threads.

use vstd::prelude::*;
use vstd::wrapping::u64_specs;

use crate::rng::{advance, mix, seed_string, SplitMix64};
use crate::sort::{
    insert_sorted, key_le, keys_distinct, lemma_insert_prefix, lemma_insert_start, lemma_insert_stop,
    lemma_sort_by_distinct_keys_forgets_order, stable_sorted,
};

verus! {

#[derive(Clone, Copy, Debug)]
pub struct DuelSpec {
    /// Rounded up to even (games are paired).
    pub games: usize,
    pub base_seed: u64,
    pub threads: usize,
    pub max_turns: u16,
    /// Progress lines every 10 games.
    pub progress: bool,
    /// Run the outer battles with the protocol log on.
    pub log_on: bool,
}

impl DuelSpec {
    /// `threads` is the machine's available parallelism (4 when unknown).
    pub fn new(games: usize, base_seed: u64, threads: usize) -> (s: Self)
        ensures
            s.games == games,
            s.base_seed == base_seed,
            s.threads == threads,
            s.max_turns == 500,
            !s.progress,
            !s.log_on,
    {
        DuelSpec { games, base_seed, threads, max_turns: 500, progress: false, log_on: false }
    }
}

/// One scheduled game: pool team indices, battle seed, whether agent A is
/// player 1.
#[derive(Debug)]
pub struct GameSpec {
    pub team_p1: usize,
    pub team_p2: usize,
    pub battle_seed: String,
    pub a_is_p1: bool,
}

pub open spec fn game_view(g: GameSpec) -> (usize, usize, Seq<char>, bool) {
    (g.team_p1, g.team_p2, g.battle_seed@, g.a_is_p1)
}

/// The generator state after `k` draws from `s`.
pub open spec fn advance_n(s: u64, k: nat) -> u64
    decreases k,
{
    if k == 0 {
        s
    } else {
        advance(advance_n(s, (k - 1) as nat))
    }
}

/// The team index drawn when the generator reaches state `z`.
#[verifier::opaque]
pub open spec fn drawn_team(z: u64, n_teams: nat) -> usize {
    (mix(z) as nat % n_teams) as usize
}

/// The battle seed drawn when the generator reaches state `z`.
#[verifier::opaque]
pub open spec fn drawn_seed(z: u64) -> Seq<char> {
    seed_string(mix(z))
}

/// The games of the first `pairs` pairings drawn from generator state `s`:
/// each pairing draws its two teams and then a battle seed, and is played
/// once with A as player 1 and once with A as player 2.
pub open spec fn schedule_spec(s: u64, n_teams: nat, pairs: nat) -> Seq<(usize, usize, Seq<char>, bool)>
    decreases pairs,
{
    if pairs == 0 {
        Seq::empty()
    } else {
        let before = schedule_spec(s, n_teams, (pairs - 1) as nat);
        let base = advance_n(s, 3 * (pairs - 1) as nat);
        let t1 = drawn_team(advance_n(base, 1), n_teams);
        let t2 = drawn_team(advance_n(base, 2), n_teams);
        let seed = drawn_seed(advance_n(base, 3));
        before.push((t1, t2, seed, true)).push((t1, t2, seed, false))
    }
}

/// The games a duel plays, in game-index order.
pub fn schedule_games(spec: &DuelSpec, n_teams: usize) -> (out: Vec<GameSpec>)
    requires
        n_teams > 0,
        spec.games < usize::MAX,
    ensures
        out@.len() == spec.games + spec.games % 2,
        out@.map_values(|g: GameSpec| game_view(g)) == schedule_spec(
            spec.base_seed,
            n_teams as nat,
            ((spec.games + spec.games % 2) / 2) as nat,
        ),
{
    let games = spec.games + spec.games % 2;
    let mut rng = SplitMix64::new(spec.base_seed);
    let mut out: Vec<GameSpec> = Vec::new();
    let pairs = games / 2;
    for k in 0..pairs
        invariant
            rng.0 == advance_n(spec.base_seed, 3 * k as nat),
            out@.len() == 2 * k,
            out@.map_values(|g: GameSpec| game_view(g)) == schedule_spec(spec.base_seed, n_teams as nat, k as nat),
            n_teams > 0,
    {
        let ghost base = rng.0;
        let t1 = rng.below(n_teams);
        let t2 = rng.below(n_teams);
        let seed = rng.battle_seed();
        let seed2 = String::from_str(seed.as_str());
        proof {
            reveal_with_fuel(advance_n, 4);
            assert(advance_n(base, 1) == advance(base));
            assert(advance_n(base, 2) == advance(advance(base)));
            assert(advance_n(base, 3) == advance(advance(advance(base))));
            lemma_advance_add(spec.base_seed, 3 * k as nat, 3);
            assert(t1 == drawn_team(advance_n(base, 1), n_teams as nat)) by {
                reveal(drawn_team);
            }
            assert(t2 == drawn_team(advance_n(base, 2), n_teams as nat)) by {
                reveal(drawn_team);
            }
            assert(seed@ == drawn_seed(advance_n(base, 3))) by {
                reveal(drawn_seed);
            }
        }
        let ghost before = out@.map_values(|g: GameSpec| game_view(g));
        out.push(GameSpec { team_p1: t1, team_p2: t2, battle_seed: seed, a_is_p1: true });
        out.push(GameSpec { team_p1: t1, team_p2: t2, battle_seed: seed2, a_is_p1: false });
        proof {
            let e1 = (t1, t2, drawn_seed(advance_n(base, 3)), true);
            let e2 = (t1, t2, drawn_seed(advance_n(base, 3)), false);
            assert(out@.map_values(|g: GameSpec| game_view(g)) =~= before.push(e1).push(e2));
        }
    }
    out
}

proof fn lemma_advance_add(s: u64, a: nat, b: nat)
    ensures
        advance_n(advance_n(s, a), b) == advance_n(s, a + b),
    decreases b,
{
    if b > 0 {
        lemma_advance_add(s, a, (b - 1) as nat);
    }
}

/// Multiplier deriving agent A's seed from the game index.
pub const SEED_MUL_A: u64 = 0xA24B_AED4_963E_E407;
/// Multiplier deriving agent B's seed from the game index.
pub const SEED_MUL_B: u64 = 0x9FB2_1C65_1E98_DF25;

/// The two agents' seeds for game `i`: the base seed xor the index times a
/// fixed odd constant (wrapping), one constant per agent.
pub fn agent_seeds(base_seed: u64, i: usize) -> (r: (u64, u64))
    ensures
        r.0 == base_seed ^ u64_specs::wrapping_mul(i as u64, SEED_MUL_A),
        r.1 == base_seed ^ u64_specs::wrapping_mul(i as u64, SEED_MUL_B),
{
    let x = i as u64;
    (base_seed ^ x.wrapping_mul(SEED_MUL_A), base_seed ^ x.wrapping_mul(SEED_MUL_B))
}

/// How one game ended for player 1.
#[derive(Clone, Copy, Debug)]
pub enum GameEnd {
    P1Win,
    P2Win,
    Tie,
    TurnCapped,
}

/// Agent A's score in half points (win 2, tie or turn cap 1, loss 0).
pub open spec fn a_half_points(end: GameEnd, a_is_p1: bool) -> nat {
    let p1: nat = match end {
        GameEnd::P1Win => 2,
        GameEnd::P2Win => 0,
        GameEnd::Tie => 1,
        GameEnd::TurnCapped => 1,
    };
    if a_is_p1 {
        p1
    } else {
        (2 - p1) as nat
    }
}

pub fn a_score(end: GameEnd, a_is_p1: bool) -> (r: u8)
    ensures
        r == a_half_points(end, a_is_p1),
{
    let p1: u8 = match end {
        GameEnd::P1Win => 2,
        GameEnd::P2Win => 0,
        GameEnd::Tie => 1,
        GameEnd::TurnCapped => 1,
    };
    if a_is_p1 {
        p1
    } else {
        2 - p1
    }
}

/// Agent A's results: games, wins, losses, ties and total half points.
#[derive(Clone, Copy, Debug)]
pub struct DuelTally {
    pub games: usize,
    pub wins: usize,
    pub losses: usize,
    pub ties: usize,
    pub half_points: usize,
}

pub open spec fn count_score(s: Seq<u8>, v: u8) -> nat
    decreases s.len(),
{
    if s.len() == 0 {
        0
    } else {
        count_score(s.drop_last(), v) + if s.last() == v { 1nat } else { 0nat }
    }
}

pub open spec fn sum_scores(s: Seq<u8>) -> nat
    decreases s.len(),
{
    if s.len() == 0 {
        0
    } else {
        sum_scores(s.drop_last()) + s.last() as nat
    }
}

/// Count A's results from its per-game half points (each 0, 1 or 2): a
/// win is 2, a loss 0, everything else a tie.
pub fn tally(scores: &[u8]) -> (t: DuelTally)
    requires
        forall|i: int| 0 <= i < scores@.len() ==> #[trigger] scores@[i] <= 2,
        scores@.len() <= usize::MAX / 2,
    ensures
        t.games == scores@.len(),
        t.wins == count_score(scores@, 2),
        t.losses == count_score(scores@, 0),
        t.ties == scores@.len() - t.wins - t.losses,
        t.half_points == sum_scores(scores@),
{
    let mut wins: usize = 0;
    let mut losses: usize = 0;
    let mut half: usize = 0;
    for i in 0..scores.len()
        invariant
            scores@.len() <= usize::MAX / 2,
            forall|i: int| 0 <= i < scores@.len() ==> #[trigger] scores@[i] <= 2,
            wins == count_score(scores@.take(i as int), 2),
            losses == count_score(scores@.take(i as int), 0),
            half == sum_scores(scores@.take(i as int)),
            wins + losses <= i,
            half <= 2 * i,
    {
        assert(scores@.take(i + 1).drop_last() =~= scores@.take(i as int));
        let v = scores[i];
        if v == 2 {
            wins = wins + 1;
        }
        if v == 0 {
            losses = losses + 1;
        }
        half = half + v as usize;
    }
    assert(scores@.take(scores@.len() as int) =~= scores@);
    DuelTally { games: scores.len(), wins, losses, ties: scores.len() - wins - losses, half_points: half }
}

/// Games come in pairs: games `2k` and `2k + 1` play the same teams on the
/// same battle seed, with agent A as player 1 in the first and player 2 in
/// the second.
pub proof fn lemma_games_are_side_swapped_pairs(s: u64, n_teams: nat, pairs: nat, k: int)
    requires
        0 <= k < pairs,
    ensures
        schedule_spec(s, n_teams, pairs).len() == 2 * pairs,
        schedule_spec(s, n_teams, pairs)[2 * k].0 == schedule_spec(s, n_teams, pairs)[2 * k + 1].0,
        schedule_spec(s, n_teams, pairs)[2 * k].1 == schedule_spec(s, n_teams, pairs)[2 * k + 1].1,
        schedule_spec(s, n_teams, pairs)[2 * k].2 == schedule_spec(s, n_teams, pairs)[2 * k + 1].2,
        schedule_spec(s, n_teams, pairs)[2 * k].3,
        !schedule_spec(s, n_teams, pairs)[2 * k + 1].3,
    decreases pairs,
{
    lemma_schedule_len(s, n_teams, pairs);
    if k < pairs - 1 {
        lemma_games_are_side_swapped_pairs(s, n_teams, (pairs - 1) as nat, k);
        lemma_schedule_len(s, n_teams, (pairs - 1) as nat);
    }
}

proof fn lemma_schedule_len(s: u64, n_teams: nat, pairs: nat)
    ensures
        schedule_spec(s, n_teams, pairs).len() == 2 * pairs,
    decreases pairs,
{
    if pairs > 0 {
        lemma_schedule_len(s, n_teams, (pairs - 1) as nat);
    }
}

/// Every game is a win, a loss or a tie for A, and A's half points are two
/// per win and one per tie.
pub proof fn lemma_tally_accounts_for_every_game(scores: Seq<u8>)
    requires
        forall|i: int| 0 <= i < scores.len() ==> #[trigger] scores[i] <= 2,
    ensures
        count_score(scores, 2) + count_score(scores, 0) + count_score(scores, 1) == scores.len(),
        sum_scores(scores) == 2 * count_score(scores, 2) + count_score(scores, 1),
    decreases scores.len(),
{
    if scores.len() > 0 {
        let d = scores.drop_last();
        assert forall|i: int| 0 <= i < d.len() implies #[trigger] d[i] <= 2 by {
            assert(d[i] == scores[i]);
        }
        lemma_tally_accounts_for_every_game(d);
        assert(scores.last() == scores[scores.len() - 1]);
    }
}


// ------------------------------------------------------------ collation

/// A finished game's record: its index, A's half points, the turns played.
pub open spec fn rec_index() -> spec_fn((usize, u8, u16)) -> int {
    |r: (usize, u8, u16)| r.0 as int
}

/// The records in game-index order (stable), without their indices.
pub open spec fn collated(arrived: Seq<(usize, u8, u16)>) -> Seq<(u8, u16)> {
    stable_sorted(arrived, key_le(rec_index())).map_values(|r: (usize, u8, u16)| (r.1, r.2))
}

/// Puts the finished games' records, in whatever order the workers
/// delivered them, into game-index order.
pub fn collate(arrived: Vec<(usize, u8, u16)>) -> (out: Vec<(u8, u16)>)
    ensures
        out@ == collated(arrived@),
{
    let ghost le = key_le(rec_index());
    let ghost src = arrived@;
    let mut sorted: Vec<(usize, u8, u16)> = Vec::new();
    let n = arrived.len();
    for k in 0..n
        invariant
            n == src.len(),
            src == arrived@,
            le == key_le(rec_index()),
            sorted@ == stable_sorted(src.take(k as int), le),
    {
        let x = arrived[k];
        let ghost t = sorted@;
        let mut j = sorted.len();
        proof {
            lemma_insert_start(t, x, le);
        }
        loop
            invariant
                j <= sorted@.len(),
                t == sorted@,
                le == key_le(rec_index()),
                insert_sorted(t, x, le) == insert_sorted(t.take(j as int), x, le) + t.subrange(j as int, t.len() as int),
            ensures
                j <= sorted@.len(),
                j == 0 || le(t[j - 1], x),
                insert_sorted(t, x, le) == insert_sorted(t.take(j as int), x, le) + t.subrange(j as int, t.len() as int),
            decreases j,
        {
            if j == 0 {
                break;
            }
            if sorted[j - 1].0 <= x.0 {
                break;
            }
            proof {
                lemma_insert_prefix(t, x, le, j as int);
            }
            j = j - 1;
        }
        proof {
            lemma_insert_stop(t, x, le, j as int);
        }
        sorted.insert(j, x);
        proof {
            assert(src.take(k + 1).drop_last() =~= src.take(k as int));
            assert(src.take(k + 1).last() == src[k as int]);
        }
    }
    proof {
        assert(src.take(n as int) =~= src);
    }
    let mut out: Vec<(u8, u16)> = Vec::new();
    for i in 0..sorted.len()
        invariant
            out@ == sorted@.take(i as int).map_values(|r: (usize, u8, u16)| (r.1, r.2)),
    {
        out.push((sorted[i].1, sorted[i].2));
        assert(sorted@.take(i + 1).map_values(|r: (usize, u8, u16)| (r.1, r.2)) =~= out@);
    }
    assert(sorted@.take(sorted@.len() as int) =~= sorted@);
    out
}

/// Law: a duel's outcome does not depend on the number of threads. The
/// schedule depends on the game count and base seed alone, each game's
/// agent seeds on its index alone (`agent_seeds`), and the threads only
/// change the order in which the finished games arrive: any arrival order
/// of the same records (one per game index) collates to the same
/// per-game results, so the tally is the same.
pub proof fn lemma_duel_ignores_thread_count(
    spec1: DuelSpec,
    spec2: DuelSpec,
    n_teams: nat,
    arrived1: Seq<(usize, u8, u16)>,
    arrived2: Seq<(usize, u8, u16)>,
)
    requires
        spec1.games == spec2.games,
        spec1.base_seed == spec2.base_seed,
        arrived1.to_multiset() == arrived2.to_multiset(),
        keys_distinct(arrived1, rec_index()),
    ensures
        schedule_spec(spec1.base_seed, n_teams, ((spec1.games + spec1.games % 2) / 2) as nat)
            == schedule_spec(spec2.base_seed, n_teams, ((spec2.games + spec2.games % 2) / 2) as nat),
        collated(arrived1) == collated(arrived2),
{
    lemma_sort_by_distinct_keys_forgets_order(arrived1, arrived2, rec_index());
}

} // verus!
