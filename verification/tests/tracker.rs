use nc2000_bot::observe::Gender;
use nc2000_bot::tracker::{ProtocolTracker, Status, TrackerDex};

fn dex() -> TrackerDex {
    let s = |v: &[&str]| v.iter().map(|x| x.to_string()).collect::<Vec<String>>();
    TrackerDex {
        species: s(&["ditto", "pikachu", "snorlax"]),
        moves: s(&["transform", "bodyslam", "thrash", "rollout", "furycutter", "batonpass", "protect", "solarbeam"]),
        conds: vec![
            ("confusion".to_string(), false),
            ("substitute".to_string(), false),
            ("trapped".to_string(), false),
            ("disable".to_string(), false),
            ("attract".to_string(), true),
        ],
    }
}

fn feed(t: &mut ProtocolTracker, d: &TrackerDex, lines: &[&str]) {
    for l in lines {
        t.push_line(d, l);
    }
}

fn started() -> (ProtocolTracker, TrackerDex) {
    let d = dex();
    let mut t = ProtocolTracker::new(0);
    feed(
        &mut t,
        &d,
        &[
            "|poke|p1|Ditto, L50|",
            "|poke|p1|Pikachu, L50, F|item",
            "|poke|p2|Snorlax, L50, M|item",
            "|switch|p1a: Dit|Ditto, L50|100/100",
            "|switch|p2a: Big|Snorlax, L50, M|200/200",
        ],
    );
    (t, d)
}

#[test]
fn preview_and_switch_fill_the_rosters() {
    let (t, _) = started();
    assert_eq!(t.opp_roster_len(), 1);
    let obs = t.observer_mons();
    assert_eq!(obs.len(), 1);
    assert_eq!(obs[0].species, 2);
    assert_eq!(obs[0].level, 50);
    assert!(matches!(obs[0].gender, Gender::M));
    assert!(obs[0].preview_has_item);
    assert!(obs[0].appeared);
    assert_eq!(obs[0].name, "Big");
    assert_eq!(t.names(0), vec!["Dit".to_string(), String::new()]);
    let p1 = t.side_state(0);
    assert_eq!(p1.mons.len(), 2);
    assert_eq!(p1.active, Some(0));
    assert!(p1.acted_this_turn);
    assert!(matches!(p1.mons[1].gender, Gender::F));
    assert_eq!(p1.mons[1].level, 50);
    assert_eq!(p1.mons[0].appear_count, 1);
    assert_eq!(p1.mons[0].pixels, 100);
    assert_eq!(p1.mons[0].hp_den, 100);
    let p2 = t.side_state(1);
    assert_eq!(p2.mons[0].pixels, 200);
    assert_eq!(p2.mons[0].hp_den, 200);
}

#[test]
fn unknown_species_and_lines_without_a_bar_change_nothing() {
    let (mut t, d) = started();
    feed(&mut t, &d, &["|poke|p2|Mew, L50|", "poke|p2|Ditto, L50|", "|move|p2a: Nobody|Body Slam|p1a: Dit"]);
    assert_eq!(t.opp_roster_len(), 1);
    assert!(t.side_state(1).mons[0].uses.is_empty());
}

#[test]
fn turn_numbers_parse_or_advance() {
    let (mut t, d) = started();
    t.push_line(&d, "|turn|5");
    assert_eq!(t.turn(), 5);
    assert!(!t.side_state(0).acted_this_turn);
    t.push_line(&d, "|turn|x");
    assert_eq!(t.turn(), 6);
}

#[test]
fn thrash_locks_for_three_uses_and_marks_pp_once() {
    let (mut t, d) = started();
    t.push_line(&d, "|move|p1a: Dit|Thrash|p2a: Big");
    let m = &t.side_state(0).mons[0];
    assert_eq!(m.uses, vec![(2, 1)]);
    assert_eq!(m.locked, Some((2, 1)));
    assert_eq!(m.last_move, Some(2));
    t.push_line(&d, "|move|p1a: Dit|Thrash|p2a: Big");
    assert_eq!(t.side_state(0).mons[0].locked, Some((2, 2)));
    t.push_line(&d, "|move|p1a: Dit|Thrash|p2a: Big");
    let m = &t.side_state(0).mons[0];
    assert_eq!(m.locked, None);
    assert_eq!(m.uses, vec![(2, 1)]);
}

#[test]
fn called_moves_mark_no_pp() {
    let (mut t, d) = started();
    t.push_line(&d, "|move|p1a: Dit|Body Slam|p2a: Big|[from] Metronome");
    let m = &t.side_state(0).mons[0];
    assert!(m.uses.is_empty());
    assert_eq!(m.last_move, Some(1));
    t.push_line(&d, "|move|p1a: Dit|Body Slam|p2a: Big|[from] Body Slam");
    assert_eq!(t.side_state(0).mons[0].uses, vec![(1, 1)]);
}

#[test]
fn a_charge_is_released_without_another_mark() {
    let (mut t, d) = started();
    t.push_line(&d, "|move|p1a: Dit|Solar Beam||[still]");
    t.push_line(&d, "|-prepare|p1a: Dit|Solar Beam");
    assert_eq!(t.side_state(0).mons[0].charging, Some(7));
    t.push_line(&d, "|move|p1a: Dit|Solar Beam|p2a: Big");
    let m = &t.side_state(0).mons[0];
    assert_eq!(m.charging, None);
    assert_eq!(m.uses, vec![(7, 1)]);
}

#[test]
fn fury_cutter_streak_counts_and_a_miss_ends_it() {
    let (mut t, d) = started();
    t.push_line(&d, "|move|p1a: Dit|Fury Cutter|p2a: Big");
    t.push_line(&d, "|move|p1a: Dit|Fury Cutter|p2a: Big");
    let m = &t.side_state(0).mons[0];
    assert_eq!(m.vols.len(), 1);
    assert_eq!(m.vols[0].key, "furycutter");
    assert_eq!(m.vols[0].counter, Some(2));
    t.push_line(&d, "|-miss|p1a: Dit|p2a: Big");
    assert!(t.side_state(0).mons[0].vols.is_empty());
}

#[test]
fn boosts_stay_within_six_stages() {
    let (mut t, d) = started();
    t.push_line(&d, "|-boost|p1a: Dit|atk|12");
    assert_eq!(t.side_state(0).mons[0].boosts[0], 6);
    t.push_line(&d, "|-unboost|p1a: Dit|atk|20");
    assert_eq!(t.side_state(0).mons[0].boosts[0], -6);
    t.push_line(&d, "|-boost|p1a: Dit|spe|2");
    t.push_line(&d, "|-copyboost|p2a: Big|p1a: Dit");
    assert_eq!(t.side_state(1).mons[0].boosts, [-6, 0, 0, 0, 2, 0, 0]);
    t.push_line(&d, "|-clearallboost");
    assert_eq!(t.side_state(0).mons[0].boosts, [0; 7]);
    assert_eq!(t.side_state(1).mons[0].boosts, [0; 7]);
}

#[test]
fn status_lines_set_companions_and_poison_ticks_count() {
    let (mut t, d) = started();
    t.push_line(&d, "|-status|p2a: Big|tox");
    let m = &t.side_state(1).mons[0];
    assert!(matches!(m.status, Status::Tox));
    assert_eq!(m.comp_res, Some(0));
    t.push_line(&d, "|-damage|p2a: Big|150/200 tox|[from] psn");
    let m = &t.side_state(1).mons[0];
    assert_eq!(m.comp_res, Some(1));
    assert_eq!(m.pixels, 150);
    t.push_line(&d, "|-heal|p2a: Big|160/200");
    assert!(matches!(t.side_state(1).mons[0].status, Status::Healthy));
    t.push_line(&d, "|-status|p1a: Dit|par");
    assert!(t.side_state(0).mons[0].comp_par);
    t.push_line(&d, "|-unboost|p1a: Dit|spe|1");
    assert!(!t.side_state(0).mons[0].comp_par);
    t.push_line(&d, "|-curestatus|p1a: Dit|par");
    assert!(matches!(t.side_state(0).mons[0].status, Status::Healthy));
}

#[test]
fn weather_counts_upkeeps_until_it_ends() {
    let (mut t, d) = started();
    t.push_line(&d, "|-weather|RainDance");
    assert_eq!(t.weather(), Some(("raindance".to_string(), 0)));
    t.push_line(&d, "|-weather|RainDance|[upkeep]");
    assert_eq!(t.weather(), Some(("raindance".to_string(), 1)));
    t.push_line(&d, "|-weather|none");
    assert_eq!(t.weather(), None);
}

#[test]
fn side_conditions_start_once_and_end() {
    let (mut t, d) = started();
    t.push_line(&d, "|turn|3");
    t.push_line(&d, "|-sidestart|p1: Alice|move: Reflect");
    t.push_line(&d, "|-sidestart|p1: Alice|Reflect");
    assert_eq!(t.side_state(0).conds, vec![("reflect".to_string(), 3)]);
    t.push_line(&d, "|-sideend|p1: Alice|Reflect");
    assert!(t.side_state(0).conds.is_empty());
}

#[test]
fn a_trap_ends_when_its_source_faints() {
    let (mut t, d) = started();
    t.push_line(&d, "|-activate|p1a: Dit|trapped");
    let v = &t.side_state(0).mons[0].vols;
    assert_eq!(v.len(), 1);
    assert_eq!(v[0].source, Some((1, 0)));
    t.push_line(&d, "|faint|p2a: Big");
    assert!(t.side_state(0).mons[0].vols.is_empty());
    let big = &t.side_state(1).mons[0];
    assert!(big.fainted);
    assert_eq!(big.pixels, 0);
    assert_eq!(t.side_state(1).fainted_this_turn, Some(0));
}

#[test]
fn baton_pass_carries_boosts_and_passable_volatiles() {
    let (mut t, d) = started();
    feed(
        &mut t,
        &d,
        &[
            "|-start|p1a: Dit|Substitute",
            "|-start|p1a: Dit|Attract",
            "|-boost|p1a: Dit|def|2",
            "|move|p1a: Dit|Baton Pass|p1a: Dit",
            "|switch|p1a: Sparky|Pikachu, L50, F|90/100",
        ],
    );
    let sd = t.side_state(0);
    assert_eq!(sd.active, Some(1));
    assert!(!sd.pending_bp);
    let out = &sd.mons[0];
    assert!(!out.active);
    assert!(out.vols.is_empty());
    assert_eq!(out.boosts, [0; 7]);
    let inc = &sd.mons[1];
    assert_eq!(inc.name, "Sparky");
    assert_eq!(inc.boosts, [0, 2, 0, 0, 0, 0, 0]);
    assert_eq!(inc.vols.len(), 1);
    assert_eq!(inc.vols[0].key, "substitute");
}

#[test]
fn a_drag_carries_nothing() {
    let (mut t, d) = started();
    feed(
        &mut t,
        &d,
        &[
            "|-boost|p1a: Dit|def|2",
            "|move|p1a: Dit|Baton Pass|p1a: Dit",
            "|drag|p1a: Sparky|Pikachu, L50, F|90/100",
        ],
    );
    assert_eq!(t.side_state(0).mons[1].boosts, [0; 7]);
}

#[test]
fn start_and_activate_details() {
    let (mut t, d) = started();
    t.push_line(&d, "|-start|p1a: Dit|perish3");
    t.push_line(&d, "|-start|p1a: Dit|perish2");
    let v = &t.side_state(0).mons[0].vols;
    assert_eq!(v.len(), 1);
    assert_eq!(v[0].key, "perishsong");
    assert_eq!(v[0].counter, Some(2));
    t.push_line(&d, "|-start|p2a: Big|Disable|Body Slam");
    let v = &t.side_state(1).mons[0].vols;
    assert_eq!(v[0].move_id, Some(1));
    assert_eq!(v[0].source, Some((0, 0)));
    t.push_line(&d, "|-activate|p2a: Big|move: Spite|Body Slam|4");
    assert_eq!(t.side_state(1).mons[0].uses, vec![(1, 4)]);
    t.push_line(&d, "|-activate|p2a: Big|item: Mystery Berry|Body Slam");
    assert_eq!(t.side_state(1).mons[0].uses, vec![(1, 0)]);
    t.push_line(&d, "|-activate|p2a: Big|move: Mimic|Transform");
    assert_eq!(t.side_state(1).mons[0].mimic_overlay, Some(0));
    t.push_line(&d, "|-activate|p1a: Dit|move: Wrap|[of] p2a: Big");
    let v = &t.side_state(0).mons[0].vols;
    assert_eq!(v.last().unwrap().key, "partiallytrapped");
    assert_eq!(v.last().unwrap().source, Some((1, 0)));
    t.push_line(&d, "|-end|p1a: Dit|move: Wrap");
    assert_eq!(t.side_state(0).mons[0].vols.len(), 1);
}

#[test]
fn protect_streak_is_counted_at_the_turn() {
    let (mut t, d) = started();
    t.push_line(&d, "|turn|1");
    t.push_line(&d, "|-singleturn|p1a: Dit|Protect");
    assert!(t.side_state(0).mons[0].protected_this_turn);
    t.push_line(&d, "|turn|2");
    let m = &t.side_state(0).mons[0];
    assert_eq!(m.stall_streak, 1);
    assert_eq!(m.last_protect_turn, 1);
    assert!(!m.protected_this_turn);
    t.push_line(&d, "|turn|3");
    t.push_line(&d, "|turn|4");
    assert_eq!(t.side_state(0).mons[0].stall_streak, 0);
}

#[test]
fn transform_copies_the_targets_boosts() {
    let (mut t, d) = started();
    t.push_line(&d, "|-boost|p2a: Big|atk|1");
    t.push_line(&d, "|-transform|p1a: Dit|p2a: Big");
    let m = &t.side_state(0).mons[0];
    assert_eq!(m.transformed_into, Some((1, 0)));
    assert_eq!(m.boosts, [1, 0, 0, 0, 0, 0, 0]);
}

#[test]
fn rosters_change_only_through_preview_lines() {
    let (mut t, d) = started();
    let before: Vec<(usize, u8)> = t.side_state(0).mons.iter().map(|m| (m.species, m.level)).collect();
    feed(
        &mut t,
        &d,
        &[
            "|switch|p1a: Sparky|Pikachu, L50, F|90/100",
            "|switch|p1a: Sparky|Snorlax, L50, M|90/100",
            "|faint|p1a: Sparky",
            "|-cureteam|p1a: Dit",
            "|move|p1a: Dit|Thrash|p2a: Big",
        ],
    );
    let after: Vec<(usize, u8)> = t.side_state(0).mons.iter().map(|m| (m.species, m.level)).collect();
    assert_eq!(before, after);
    t.push_line(&d, "|poke|p1|Snorlax, L50|");
    assert_eq!(t.side_state(0).mons.len(), 3);
    assert_eq!(t.side_state(0).mons[2].species, 2);
}

#[test]
fn tracker_does_not_retain_transformed_move_as_base_set_evidence() {
    let d = dex();
    let mut tracker = ProtocolTracker::new(0);
    for line in [
        "|poke|p1|Ditto, L50|",
        "|poke|p1|Pikachu, L50|",
        "|poke|p2|Snorlax, L50, M|",
        "|switch|p1a: Ditto|Ditto, L50|100/100",
        "|switch|p2a: Snorlax|Snorlax, L50, M|100/100",
        "|turn|2",
        "|move|p1a: Ditto|Transform|p2a: Snorlax",
        "|-transform|p1a: Ditto|p2a: Snorlax",
        "|turn|3",
        "|move|p1a: Ditto|Body Slam|p2a: Snorlax",
        "|switch|p1a: Pikachu|Pikachu, L50|100/100",
        "|switch|p1a: Ditto|Ditto, L50|100/100",
    ] {
        tracker.push_line(&d, line);
    }
    let moves: Vec<&str> = tracker.side_state(0).mons[0]
        .uses
        .iter()
        .map(|(id, _)| d.moves[*id].as_str())
        .collect();
    assert_eq!(moves, ["transform"]);
}
