use nc2000_bot::position::{
    full_hp, hp_den_default, max_pp, plain, ItemKnowledge, MonSpec, MoveBook, MoveData, PokemonSet,
    PositionError, PositionSpec, SideSpec, UseSpec, VolSpec, SCHEMA,
};

fn mon(species: &str, active: bool, appeared: bool) -> MonSpec {
    let mut m = MonSpec::default();
    m.species = species.to_string();
    m.name = species.to_string();
    m.active = active;
    m.appeared = appeared || active;
    m
}

fn side(mons: Vec<MonSpec>, active: Option<usize>) -> SideSpec {
    SideSpec {
        mons,
        active,
        party: vec![],
        conditions: vec![],
        pending_bp: false,
        acted_this_turn: false,
        fainted_this_turn: None,
        fainted_last_turn: None,
        last_move: None,
    }
}

fn set(species: &str) -> PokemonSet {
    PokemonSet {
        name: species.to_string(),
        species: species.to_string(),
        item: String::new(),
        ability: String::new(),
        moves: vec!["tackle".to_string()],
        level: 50,
        evs: None,
        ivs: None,
        happiness: None,
        gender: None,
    }
}

fn position() -> PositionSpec {
    let own = vec![mon("Snorlax", true, true), mon("Zapdos", false, true), mon("Mew", false, false), mon("Ditto", false, false)];
    let foe = vec![mon("Pikachu", true, true), mon("Raichu", false, false)];
    PositionSpec {
        schema: SCHEMA.to_string(),
        side: 0,
        turn: 3,
        upkeep_this_turn: false,
        own_sets: vec![set("Snorlax"), set("Zapdos"), set("Mew"), set("Ditto")],
        sides: [side(own, Some(0)), side(foe, Some(0))],
        weather: None,
        team_preview: false,
        force_switch: false,
        trapped: false,
    }
}

#[test]
fn defaults_are_full_hp() {
    assert_eq!(full_hp(), 100);
    assert_eq!(hp_den_default(), 100);
    let m = MonSpec::default();
    assert_eq!((m.hp_num, m.hp_den, m.level), (100, 100, 50));
}

#[test]
fn a_consistent_position_checks_and_derives_its_party() {
    let p = position();
    assert!(p.check().is_ok());
    assert_eq!(p.foe(), 1);
    // active first, then those that appeared, then fresh picks up to three
    assert_eq!(p.own_party().unwrap(), vec![0, 1, 2]);
    assert_eq!(p.sides[0].active_mon().unwrap().species, "Snorlax");
}

#[test]
fn check_names_the_first_problem() {
    let mut p = position();
    p.schema = "other".to_string();
    let e = p.check().unwrap_err();
    assert_eq!(e.message(), "schema: expected nc2000-position-v1, got other");

    let mut p = position();
    p.sides[1].mons[1].hp_num = 0;
    let e = p.check().unwrap_err();
    assert!(matches!(e, PositionError::Mon { side: 1, index: 1, .. }), "{}", e.message());

    let mut p = position();
    p.sides[0].party = vec![0, 9];
    assert!(matches!(p.own_party(), Err(PositionError::PartySlot { slot: 9 })));
}

#[test]
fn mon_helpers() {
    let mut m = mon("Snorlax", true, true);
    m.gender = "M".to_string();
    assert_eq!(m.details(), "Snorlax, L50, M");
    m.hp_num = 50;
    m.hp_den = 100;
    let share = |m: &nc2000_bot::position::MonSpec, maxhp: i32| {
        ((m.hp_num as f64 / m.hp_den.max(1) as f64) * maxhp as f64).round() as i32
    };
    assert_eq!(m.own_hp(211, share(&m, 211)), 106); // 105.5 rounds away from zero
    m.hp_num = 29;
    assert_eq!(m.own_hp(50, share(&m, 50)), 14); // 0.29 * 50 is 14.499999... in f64
    m.hp_num = 0;
    assert_eq!(m.own_hp(50, share(&m, 50)), 1);
    m.hp_exact = Some(300);
    assert_eq!(m.own_hp(211, share(&m, 211)), 211);
    m.uses = vec![UseSpec { move_key: "hiddenpower".to_string(), n: 2 }, UseSpec { move_key: "rest".to_string(), n: 1 }];
    assert_eq!(m.uses_of("hiddenpowerice"), 2);
    assert_eq!(m.uses_of("surf"), 0);
    m.volatiles = vec![VolSpec { key: "confusion".to_string(), start_turn: 2, move_key: None, source: None, counter: None }];
    assert_eq!(m.volatile("confusion").unwrap().start_turn, 2);
    assert!(m.volatile("substitute").is_none());
    assert_eq!(plain("hiddenpowergrass"), "hiddenpower");
}

#[test]
fn item_knowledge_round_trips() {
    let k = ItemKnowledge::from_obs(Some(Some("leftovers")));
    assert_eq!(k.to_obs(), Some(Some("leftovers")));
    assert_eq!(ItemKnowledge::from_obs(Some(None)).to_obs(), Some(None));
    assert_eq!(ItemKnowledge::unknown().to_obs(), None);
}

#[test]
fn max_pp_applies_pp_ups() {
    let book = MoveBook {
        moves: vec![
            MoveData { key: "tackle".to_string(), name: "Tackle".to_string(), pp: 35, no_pp_boosts: false },
            MoveData { key: "sketch".to_string(), name: "Sketch".to_string(), pp: 1, no_pp_boosts: true },
        ],
    };
    assert_eq!(max_pp(&book, 0), 56);
    assert_eq!(max_pp(&book, 1), 1);
    assert_eq!(book.id("sketch"), Some(1));
    assert_eq!(book.id("surf"), None);
}
