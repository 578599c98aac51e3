use nc2000_bot::fabricate::{add_sets, fabricate_set, pick_slots, request_rows, MonSnapshot, Provenance, SetDex, SetMove, SetSources};
use nc2000_bot::observe::Gender;
use nc2000_bot::position::PokemonSet;

fn mv(key: &str, name: &str, status: bool, base_power: u16, ty: &str) -> SetMove {
    SetMove { key: key.into(), name: name.into(), status, base_power, move_type: ty.into(), pp: 15 }
}

fn dex() -> SetDex {
    SetDex {
        species: vec![("snorlax".into(), "Snorlax".into()), ("pikachu".into(), "Pikachu".into())],
        moves: vec![
            mv("bodyslam", "Body Slam", false, 85, "Normal"),
            mv("earthquake", "Earthquake", false, 100, "Ground"),
            mv("rest", "Rest", true, 0, "Psychic"),
            mv("splash", "Splash", true, 0, "Normal"),
            mv("thunderbolt", "Thunderbolt", false, 95, "Electric"),
            mv("thunder", "Thunder", false, 120, "Electric"),
            mv("surf", "Surf", false, 95, "Water"),
            mv("hyperbeam", "Hyper Beam", false, 150, "Normal"),
            mv("hiddenpowerice", "Hidden Power Ice", false, 70, "Ice"),
        ],
    }
}

fn set(species: &str, item: &str, moves: &[&str]) -> PokemonSet {
    PokemonSet {
        name: String::new(),
        species: species.into(),
        item: item.into(),
        ability: String::new(),
        moves: moves.iter().map(|m| m.to_string()).collect(),
        level: 100,
        evs: None,
        ivs: None,
        happiness: None,
        gender: None,
    }
}

fn snapshot(species: usize, name: &str, uses: &[usize]) -> MonSnapshot {
    MonSnapshot {
        species,
        name: name.into(),
        gender: Gender::N,
        level: 50,
        uses: uses.iter().map(|&id| (id, 1)).collect(),
    }
}

#[test]
fn full_log_own_moves_select_the_matching_set_and_item_is_time_aware() {
    let d = dex();
    let src = SetSources {
        by_species: vec![(
            0,
            vec![
                set("Snorlax", "Leftovers", &["Body Slam", "Earthquake", "Self-Destruct", "Belly Drum"]),
                set("Snorlax", "Mint Berry", &["Body Slam", "Earthquake", "Rest", "Curse"]),
            ],
        )],
        learnsets: vec![],
        hp_dvs: vec![],
    };
    let mon = snapshot(0, "snorlax", &[0, 1]);
    let (before, provenance) = fabricate_set(&d, &src, &mon, &["rest".into()], Some("Mint Berry"), false);
    assert_eq!(provenance.as_str(), "cand-full");
    assert_eq!(before.item, "Mint Berry");
    assert!(before.moves.iter().any(|m| m == "Rest"));
    let (after, _) = fabricate_set(&d, &src, &mon, &["rest".into()], Some("Mint Berry"), true);
    assert_eq!(after.item, "");
}

#[test]
fn equal_candidate_scores_keep_the_earlier_source() {
    let d = dex();
    let src = SetSources {
        by_species: vec![(1, vec![set("Pikachu", "Mint Berry", &["Splash"]), set("Pikachu", "Gold Berry", &["Splash"])])],
        learnsets: vec![],
        hp_dvs: vec![],
    };
    let mon = snapshot(1, "pikachu", &[3]);
    let (s, _) = fabricate_set(&d, &src, &mon, &[], None, false);
    assert_eq!(s.item, "Mint Berry");
}

#[test]
fn a_partial_match_puts_the_reveals_first_and_fills_from_the_candidate() {
    let d = dex();
    let src = SetSources {
        by_species: vec![(0, vec![set("Snorlax", "Leftovers", &["Body Slam", "Curse", "Rest", "Sleep Talk"])])],
        learnsets: vec![],
        hp_dvs: vec![],
    };
    let mon = snapshot(0, "", &[1, 0]);
    let (s, p) = fabricate_set(&d, &src, &mon, &[], None, false);
    assert!(matches!(p, Provenance::CandFill));
    assert_eq!(s.moves, vec!["Earthquake", "Body Slam", "Curse", "Rest"]);
    assert_eq!(s.name, "Snorlax");
    assert_eq!(s.level, 50);
    assert_eq!(s.gender, Some(String::new()));
    assert_eq!(s.item, "Leftovers");
}

#[test]
fn without_candidates_the_learnset_pads_by_power_one_per_type() {
    let d = dex();
    let learnset: Vec<String> = ["thunder", "thunderbolt", "surf", "hyperbeam", "hiddenpowerice", "bodyslam", "splash"]
        .iter()
        .map(|s| s.to_string())
        .collect();
    let src = SetSources {
        by_species: vec![],
        learnsets: vec![("pikachu".into(), learnset)],
        hp_dvs: vec![("ice".into(), (15, 13))],
    };
    let mon = snapshot(1, "Sparky", &[8]);
    let (s, p) = fabricate_set(&d, &src, &mon, &[], None, false);
    assert!(matches!(p, Provenance::LearnsetPad));
    assert_eq!(s.moves, vec!["Hidden Power", "Hyper Beam", "Thunder", "Surf"]);
    assert_eq!(s.item, "Leftovers");
    assert_eq!(s.ivs, Some(vec![("atk".to_string(), 30), ("def".to_string(), 26)]));
    assert_eq!(s.name, "Sparky");
    assert_eq!(s.evs.as_ref().map(|e| e.len()), Some(6));
}

#[test]
fn sets_group_by_species_in_order_and_unknown_species_are_skipped() {
    let d = dex();
    let mut by = Vec::new();
    add_sets(&mut by, &d, &vec![set("Snorlax", "Leftovers", &[]), set("Mew", "", &[]), set("Pikachu", "Gold Berry", &[])]);
    add_sets(&mut by, &d, &vec![set("Snorlax", "Mint Berry", &[])]);
    assert_eq!(by.len(), 2);
    assert_eq!(by[0].0, 0);
    assert_eq!(by[0].1.iter().map(|s| s.item.as_str()).collect::<Vec<_>>(), ["Leftovers", "Mint Berry"]);
    assert_eq!(by[1].0, 1);
    assert_eq!(by[1].1.len(), 1);
}

#[test]
fn the_brought_mons_are_the_active_then_the_seen_then_unseen_ones() {
    assert_eq!(pick_slots(&[true, false, true, false, true, false], 2), Some((vec![2, 0, 4], false)));
    assert_eq!(pick_slots(&[false, false, true, false, false, false], 2), Some((vec![2, 0, 1], true)));
    assert_eq!(pick_slots(&[true, true], 0), None);
}

#[test]
fn request_rows_follow_pp_marks_and_encore() {
    let d = dex();
    let moves = vec!["Body Slam".to_string(), "Earthquake".to_string(), "Curse".to_string()];
    let uses = vec![(0, 3), (1, 30)];
    let rows = request_rows(&d, &moves, &uses, None, None);
    assert_eq!(rows[0], ("bodyslam".to_string(), "Body Slam".to_string(), 21, 24, false));
    assert_eq!(rows[1], ("earthquake".to_string(), "Earthquake".to_string(), 0, 24, false));
    assert_eq!(rows[2], ("curse".to_string(), "Curse".to_string(), 5, 5, false));
    let rows = request_rows(&d, &moves, &uses, Some(1), None);
    assert_eq!(rows.iter().map(|r| r.4).collect::<Vec<_>>(), [true, false, true]);
    let rows = request_rows(&d, &moves, &uses, None, Some(0));
    assert_eq!(rows.iter().map(|r| r.4).collect::<Vec<_>>(), [true, false, false]);
}
