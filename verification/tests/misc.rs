use nc2000_bot::belief::{fallback_source, format_move_legal_at_level, FallbackPolicy, FallbackSource, FormatLearnset};
use nc2000_bot::blind::argmax_visits;
use nc2000_bot::bounds::{stop_reason, BandCheck, Stop};
use nc2000_bot::duel::{a_score, agent_seeds, collate, schedule_games, tally, DuelSpec, GameEnd};
use nc2000_bot::observe::{apply_item_event, ItemEventKind, ItemObs};
use nc2000_bot::rng::SplitMix64;

#[test]
fn splitmix_reference_values() {
    // SplitMix64 from seed 0: the published first outputs.
    let mut r = SplitMix64::new(0);
    assert_eq!(r.next(), 0xe220_a839_7b1d_cdaf);
    assert_eq!(r.next(), 0x6e78_9e6a_a1b9_65f4);
    let mut r = SplitMix64::new(1);
    let v = SplitMix64::new(1).next();
    assert_eq!(r.below(10), (v % 10) as usize);
}

#[test]
fn battle_seed_is_four_decimal_limbs() {
    let mut a = SplitMix64::new(42);
    let mut b = SplitMix64::new(42);
    let v = b.next();
    let s = a.battle_seed();
    assert_eq!(s, format!("{},{},{},{}", (v >> 48) & 0xffff, (v >> 32) & 0xffff, (v >> 16) & 0xffff, v & 0xffff));
    assert_eq!(a.0, b.0);
}

#[test]
fn fallback_ids_and_sources() {
    assert_eq!(FallbackPolicy::default().id(), "layered-meta-rentals-learnset-v1");
    assert_eq!(FallbackPolicy::LegacyMetaOnly.id(), "legacy-meta-only-v1");
    assert_eq!(FallbackSource::CommunityRental.id(), "community-rental");
    assert_eq!(FallbackSource::LegacyEmpty.id(), "legacy-empty");
    assert_eq!(fallback_source(FallbackPolicy::Layered, true, true).id(), "meta");
    assert_eq!(fallback_source(FallbackPolicy::Layered, false, true).id(), "community-rental");
    assert_eq!(fallback_source(FallbackPolicy::Layered, false, false).id(), "learnset");
    assert_eq!(fallback_source(FallbackPolicy::LegacyMetaOnly, false, true).id(), "legacy-empty");
}

#[test]
fn learnset_acceptance() {
    let table = vec![FormatLearnset {
        species: "bulbasaur".to_string(),
        moves: vec!["tackle".to_string(), "hiddenpower".to_string(), "solarbeam".to_string()],
        move_min_level: vec![("solarbeam".to_string(), 46)],
    }];
    assert!(format_move_legal_at_level(&table, "bulbasaur", "tackle", 5));
    assert!(format_move_legal_at_level(&table, "bulbasaur", "hiddenpowerfire", 50));
    assert!(!format_move_legal_at_level(&table, "bulbasaur", "solarbeam", 45));
    assert!(format_move_legal_at_level(&table, "bulbasaur", "solarbeam", 46));
    assert!(!format_move_legal_at_level(&table, "bulbasaur", "surf", 50));
    assert!(!format_move_legal_at_level(&table, "ivysaur", "tackle", 50));
}

#[test]
fn argmax_prefers_the_last_allowed_maximum() {
    assert_eq!(argmax_visits(&[3, 9, 9, 1], None), 2);
    assert_eq!(argmax_visits(&[5, 5], None), 1);
    assert_eq!(argmax_visits(&[3, 9, 5], Some(&[false, true, false])), 2);
    assert_eq!(argmax_visits(&[3, 9, 9, 1], Some(&[false, false, true, false])), 1);
    // everything ruled out: the last maximum overall
    assert_eq!(argmax_visits(&[3, 9, 9, 1], Some(&[true, true, true, true])), 2);
    // a short mask leaves the tail allowed
    assert_eq!(argmax_visits(&[3, 9, 9, 1], Some(&[true, true])), 2);
    assert_eq!(argmax_visits(&[], None), 0);
}

#[test]
fn stop_rule_priority() {
    let band = Some(BandCheck { above: true, below: false, inside: true });
    assert_eq!(stop_reason(true, band, 0, 10, 0, 10).map(|s| s as u8), Some(Stop::WidthMet as u8));
    assert!(matches!(stop_reason(false, band, 0, 10, 0, 10), Some(Stop::ProvenAbove)));
    let inside = Some(BandCheck { above: false, below: false, inside: true });
    assert!(matches!(stop_reason(false, inside, 99, 10, 0, 10), Some(Stop::Contained)));
    assert!(matches!(stop_reason(false, None, 10, 10, 99, 10), Some(Stop::WorkExhausted)));
    assert!(matches!(stop_reason(false, None, 9, 10, 10, 10), Some(Stop::NodeBudget)));
    assert!(stop_reason(false, None, 9, 10, 9, 10).is_none());
}

#[test]
fn duel_schedule_is_paired_and_seeded() {
    let spec = DuelSpec::new(5, 1, 4);
    assert_eq!(spec.max_turns, 500);
    let games = schedule_games(&spec, 120);
    assert_eq!(games.len(), 6);
    let mut rng = SplitMix64::new(1);
    for k in 0..3 {
        let t1 = rng.below(120);
        let t2 = rng.below(120);
        let seed = rng.battle_seed();
        let (a, b) = (&games[2 * k], &games[2 * k + 1]);
        assert_eq!((a.team_p1, a.team_p2, a.a_is_p1), (t1, t2, true));
        assert_eq!((b.team_p1, b.team_p2, b.a_is_p1), (t1, t2, false));
        assert_eq!(a.battle_seed, seed);
        assert_eq!(b.battle_seed, seed);
    }
    let (sa, sb) = agent_seeds(1, 3);
    assert_eq!(sa, 1 ^ 3u64.wrapping_mul(0xA24B_AED4_963E_E407));
    assert_eq!(sb, 1 ^ 3u64.wrapping_mul(0x9FB2_1C65_1E98_DF25));
}

#[test]
fn duel_tally() {
    let scores: Vec<u8> = [
        (GameEnd::P1Win, true),
        (GameEnd::P1Win, false),
        (GameEnd::Tie, true),
        (GameEnd::TurnCapped, false),
        (GameEnd::P2Win, false),
    ]
    .iter()
    .map(|&(e, a)| a_score(e, a))
    .collect();
    assert_eq!(scores, vec![2, 0, 1, 1, 2]);
    let t = tally(&scores);
    assert_eq!((t.games, t.wins, t.losses, t.ties, t.half_points), (5, 2, 1, 2, 6));
}

#[test]
fn item_observations() {
    let mut o = ItemObs::unknown();
    assert!(apply_item_event(&mut o, ItemEventKind::RevealedHeld(7)));
    assert_eq!((o.original, o.current), (Some(Some(7)), Some(Some(7))));
    assert!(o.lost(7));
    assert_eq!(o.current, Some(None));
    // a stale reveal after the loss changes nothing
    assert!(!o.revealed_held(7));
    assert_eq!((o.original, o.current), (Some(Some(7)), Some(None)));

    let mut t = ItemObs::unknown();
    assert!(t.gained(3));
    assert_eq!((t.original, t.current, t.gained), (Some(None), Some(Some(3)), true));
    assert!(t.lost(3));
    assert_eq!(t.original, Some(None));
    assert!(t.gained(3));
    assert_eq!(t.current, Some(Some(3)));
}

#[test]
fn duel_results_do_not_depend_on_arrival_order() {
    // what two workers and what three workers might deliver for games 0..4
    let two = vec![(1, 0, 30), (3, 2, 12), (0, 2, 41), (2, 1, 500)];
    let three = vec![(2, 1, 500), (0, 2, 41), (3, 2, 12), (1, 0, 30)];
    let a = collate(two);
    let b = collate(three);
    assert_eq!(a, vec![(2, 41), (0, 30), (1, 500), (2, 12)]);
    assert_eq!(a, b);
    let scores: Vec<u8> = a.iter().map(|r| r.0).collect();
    let t = tally(&scores);
    assert_eq!((t.games, t.wins, t.losses, t.ties, t.half_points), (4, 2, 1, 1, 5));
}
