use nc2000_bot::import::{boost_index, impute_hp, parse_hp, team_total_level, ReqMon, ReqMove, Request, MAX_TOTAL_LEVEL};

fn announce_percent(hp: i32, maxhp: i32) -> i32 {
    if hp == maxhp {
        100
    } else {
        let c = (100 * hp + maxhp - 1) / maxhp;
        c.min(99)
    }
}

fn announce_pixels(hp: i32, maxhp: i32) -> i32 {
    (48 * hp / maxhp).max(1)
}

#[test]
fn imputed_hp_announces_what_was_announced() {
    for maxhp in [1, 2, 3, 7, 48, 99, 100, 101, 211, 350, 703] {
        for hp in 1..=maxhp {
            let cur = announce_percent(hp, maxhp);
            let h = impute_hp(cur, 100, maxhp);
            assert!(1 <= h && h <= maxhp);
            assert_eq!(announce_percent(h, maxhp), cur, "hp {hp}/{maxhp}");
            let px = announce_pixels(hp, maxhp);
            let h = impute_hp(px, 48, maxhp);
            assert!(1 <= h && h <= maxhp);
            assert_eq!(announce_pixels(h, maxhp), px, "px hp {hp}/{maxhp}");
        }
    }
}

#[test]
fn impute_edges() {
    assert_eq!(impute_hp(0, 100, 211), 0);
    assert_eq!(impute_hp(-3, 100, 211), 0);
    assert_eq!(impute_hp(100, 100, 211), 211);
    assert_eq!(impute_hp(48, 0, 211), 211); // non-positive denominator reads as 48 pixels
    assert_eq!(impute_hp(50, 100, 200), 100);
    assert_eq!(impute_hp(1, 100, 200), 2);
}

#[test]
fn hp_fields() {
    assert_eq!(parse_hp("137/211 par"), (137, 211, "par".to_string()));
    assert_eq!(parse_hp("31/48"), (31, 48, String::new()));
    assert_eq!(parse_hp("0 fnt"), (0, 0, "fnt".to_string()));
    assert_eq!(parse_hp("55"), (55, 0, String::new()));
    assert_eq!(parse_hp("x/y tox"), (0, 0, "tox".to_string()));
    assert_eq!(parse_hp("-5/+7"), (-5, 7, String::new()));
    assert_eq!(parse_hp("99999999999/1"), (0, 1, String::new()));
}

#[test]
fn boost_table_order() {
    assert_eq!(boost_index("atk"), Some(0));
    assert_eq!(boost_index("spe"), Some(4));
    assert_eq!(boost_index("evasion"), Some(6));
    assert_eq!(boost_index("spc"), None);
}

#[test]
fn total_level_of_a_pick() {
    let levels = [50, 55, 50, 52, 51, 53];
    assert_eq!(team_total_level(&levels, &[1, 2, 3]), 155);
    assert_eq!(team_total_level(&levels, &[2, 4, 6]), 160);
    assert_eq!(team_total_level(&levels, &[0, 9, 1]), 50);
    assert!(team_total_level(&levels, &[1, 2, 3]) <= MAX_TOTAL_LEVEL);
}

fn mv(id: &str, pp: Option<i32>, disabled: bool) -> ReqMove {
    ReqMove { id: id.to_string(), pp, maxpp: pp, disabled }
}

fn mon(active: bool, fainted: bool) -> ReqMon {
    ReqMon {
        details: "Snorlax, L50, M".to_string(),
        hp: if fainted { 0 } else { 100 },
        maxhp: 100,
        status: String::new(),
        fainted,
        active,
        item: String::new(),
    }
}

fn req(force: bool, trapped: bool, moves: Vec<ReqMove>, mons: Vec<ReqMon>) -> Request {
    Request { team_preview: false, force_switch: force, wait: false, trapped, active_moves: moves, pokemon: mons }
}

#[test]
fn legal_inputs_of_a_move_request() {
    let r = req(
        false,
        false,
        vec![mv("surf", Some(5), false), mv("rest", Some(0), false), mv("toxic", None, true), mv("ice beam", None, false)],
        vec![mon(true, false), mon(false, true), mon(false, false)],
    );
    assert_eq!(r.legal_inputs(), vec!["move surf", "move ice beam", "switch 3"]);
    let trapped = req(false, true, vec![mv("surf", Some(5), false)], vec![mon(true, false), mon(false, false)]);
    assert_eq!(trapped.legal_inputs(), vec!["move surf"]);
}

#[test]
fn legal_inputs_of_a_forced_switch() {
    let r = req(true, true, vec![mv("surf", Some(5), false)], vec![mon(true, true), mon(false, false), mon(false, false)]);
    assert_eq!(r.legal_inputs(), vec!["switch 2", "switch 3"]);
    let none_left = req(true, false, vec![], vec![mon(true, true), mon(false, true)]);
    assert_eq!(none_left.legal_inputs(), vec!["pass"]);
    let mut preview = req(true, false, vec![], vec![mon(false, false)]);
    preview.team_preview = true;
    assert!(preview.legal_inputs().is_empty());
    let mut wait = req(false, false, vec![mv("surf", None, false)], vec![]);
    wait.wait = true;
    assert!(wait.legal_inputs().is_empty());
}
