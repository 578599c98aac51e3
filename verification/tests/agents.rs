use nc2000_bot::agent::{
    static_move_score8, total_order_key, DecisionView, Effectiveness, MaxDamageAgent, RandomAgent,
    SearchChoice,
};
use nc2000_bot::rng::SplitMix64;

fn same(a: SearchChoice, b: SearchChoice) -> bool {
    nc2000_bot::agent::same_choice(&a, &b)
}

#[test]
fn random_agent_picks_below_len_of_its_own_stream() {
    let choices = [SearchChoice::Move(1), SearchChoice::Move(2), SearchChoice::Switch(2)];
    let mut agent = RandomAgent::new(7);
    let mut rng = SplitMix64::new(7);
    for _ in 0..20 {
        let c = agent.choose_action(&choices);
        let i = rng.below(choices.len());
        assert!(same(c, choices[i]));
    }
    assert_eq!(agent.name(), "random");
}

#[test]
fn max_damage_names() {
    assert_eq!(MaxDamageAgent::new().name(), "maxdamage");
    assert_eq!(MaxDamageAgent::conformant().name(), "greedy");
    assert!(!MaxDamageAgent::default().uses_conformant_model());
}

#[test]
fn max_damage_keeps_the_builder_order_at_preview() {
    let agent = MaxDamageAgent::new();
    let view = DecisionView { actives: false, move_keys: vec![0, 0], party_hp: vec![] };
    let choices = [SearchChoice::Team([2, 1, 3]), SearchChoice::Team([1, 2, 3])];
    assert!(same(agent.choose_action(&choices, &view), SearchChoice::Team([1, 2, 3])));
    let choices = [SearchChoice::Team([2, 1, 3]), SearchChoice::Team([3, 1, 2])];
    assert!(same(agent.choose_action(&choices, &view), SearchChoice::Team([2, 1, 3])));
}

#[test]
fn max_damage_forced_switch_takes_the_healthiest_last_on_ties() {
    let agent = MaxDamageAgent::new();
    let view = DecisionView {
        actives: true,
        move_keys: vec![0, 0, 0],
        party_hp: vec![(0, 100), (50, 100), (100, 200)],
    };
    let choices = [SearchChoice::Switch(2), SearchChoice::Switch(3), SearchChoice::Pass];
    assert!(same(agent.choose_action(&choices, &view), SearchChoice::Switch(3)));
    let view = DecisionView { actives: true, move_keys: vec![0, 0], party_hp: vec![(0, 1), (10, 100), (90, 100)] };
    let choices = [SearchChoice::Switch(3), SearchChoice::Switch(2)];
    assert!(same(agent.choose_action(&choices, &view), SearchChoice::Switch(3)));
}

#[test]
fn max_damage_attacks_with_the_best_key_never_switching() {
    let agent = MaxDamageAgent::new();
    let choices = [SearchChoice::Move(10), SearchChoice::Move(11), SearchChoice::Move(12), SearchChoice::Switch(2)];
    let view = DecisionView { actives: true, move_keys: vec![5, 9, 9, 100], party_hp: vec![(1, 1), (1, 1)] };
    // ties go to the last maximal move; the switch's key is ignored
    assert!(same(agent.choose_action(&choices, &view), SearchChoice::Move(12)));
    let view = DecisionView { actives: false, move_keys: vec![5, 9, 9, 100], party_hp: vec![(1, 1), (1, 1)] };
    assert!(same(agent.choose_action(&choices, &view), SearchChoice::Move(10)));
}

#[test]
fn static_score_is_bp_stab_and_effectiveness_times_eight() {
    // 90 bp, STAB, super effective: 90 * 1.5 * 2 = 270
    assert_eq!(static_move_score8(false, 90, true, &[Effectiveness::Super]), 270 * 8);
    // resisted twice: 80 * 0.25 = 20
    assert_eq!(static_move_score8(false, 80, false, &[Effectiveness::NotVery, Effectiveness::NotVery]), 20 * 8);
    assert_eq!(static_move_score8(false, 80, true, &[Effectiveness::Neutral, Effectiveness::Immune]), 0);
    assert_eq!(static_move_score8(true, 80, true, &[]), 0);
}

#[test]
fn total_order_key_orders_like_total_cmp() {
    let vals = [f64::NEG_INFINITY, -2.5, -0.0, 0.0, 1e-300, 0.5, 3.0, f64::INFINITY];
    for w in vals.windows(2) {
        assert!(total_order_key(w[0].to_bits()) < total_order_key(w[1].to_bits()), "{:?}", w);
        assert_eq!(w[0].total_cmp(&w[1]), std::cmp::Ordering::Less);
    }
}
