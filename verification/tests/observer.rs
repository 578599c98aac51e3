use nc2000_bot::observe::{DexKeys, Gender, ItemObs, MonObs, Observer, RosterView};

fn dex() -> DexKeys {
    DexKeys {
        moves: ["tackle", "thunderbolt", "rest", "sleeptalk", "struggle", "bodyslam", "surf"].iter().map(|s| s.to_string()).collect(),
        items: ["leftovers", "mintberry", "focusband"].iter().map(|s| s.to_string()).collect(),
    }
}

fn mon(name: &str) -> MonObs {
    MonObs {
        species: 1,
        level: 50,
        gender: Gender::N,
        name: name.to_string(),
        preview_has_item: true,
        revealed_moves: vec![],
        item: ItemObs::unknown(),
        appeared: false,
    }
}

fn observer() -> Observer {
    // we are p1; the opponent (p2) has Zap, Lax, and two mons both nicknamed Twin
    Observer::from_mons(0, vec![mon("Zap"), mon("Lax"), mon("Twin"), mon("Twin")], vec![Some(0), Some(1), None, None])
}

#[test]
fn moves_are_revealed_once_and_called_moves_only_via_sleep_talk() {
    let mut o = observer();
    let d = dex();
    assert!(o.scan_line("|move|p2a: Zap|Thunderbolt|p1a: X", &d));
    assert!(!o.scan_line("|move|p2a: Zap|Thunderbolt|p1a: X", &d));
    assert!(!o.scan_line("|move|p2a: Zap|Surf|p1a: X|[from] Metronome", &d));
    assert!(o.scan_line("|move|p2a: Zap|Rest|p2a: Zap|[from] Sleep Talk", &d));
    assert!(!o.scan_line("|move|p2a: Zap|Struggle|p1a: X", &d));
    assert!(!o.scan_line("|move|p1a: Zap|Tackle|p2a: Zap", &d)); // our own side
    assert!(!o.scan_line("|move|p2a: Twin|Tackle|p1a: X", &d)); // ambiguous nickname
    assert!(!o.scan_line("move|p2a: Zap|Tackle|p1a: X", &d)); // not a protocol line
    let mons = o.mons();
    assert_eq!(mons[0].revealed_moves, vec![1, 2]);
    assert!(mons[1].revealed_moves.is_empty());
}

#[test]
fn transform_suppresses_move_reveals_until_a_switch() {
    let mut o = observer();
    let d = dex();
    assert!(!o.scan_line("|-transform|p2a: Lax|p1a: X", &d));
    assert!(!o.scan_line("|move|p2a: Lax|Surf|p1a: X", &d));
    assert!(!o.scan_line("|switch|p2a: Zap|Zapdos, L50|100/100", &d));
    assert!(o.scan_line("|move|p2a: Lax|Body Slam|p1a: X", &d));
    assert_eq!(o.mons()[1].revealed_moves, vec![5]);
}

#[test]
fn item_lines() {
    let mut o = observer();
    let d = dex();
    assert!(o.scan_line("|-heal|p2a: Lax|88/100|[from] item: Leftovers", &d));
    assert_eq!(o.mons()[1].item.original, Some(Some(0)));
    assert!(o.scan_line("|-enditem|p2a: Zap|Mint Berry|[eat]", &d));
    assert_eq!(o.mons()[0].item.current, Some(None));
    // a stale reveal after the item left does not resurrect it
    assert!(!o.scan_line("|-activate|p2a: Zap|item: Mint Berry", &d));
    assert_eq!(o.mons()[0].item.current, Some(None));
    // our Thief takes theirs
    assert!(o.scan_line("|-item|p1a: X|Leftovers|[from] move: Thief|[of] p2a: Lax", &d));
    assert_eq!(o.mons()[1].item.current, Some(None));
}

#[test]
fn observe_diffs_the_frame_and_reads_new_log_lines() {
    let mut o = observer();
    let d = dex();
    let frame = vec![
        RosterView { on_field_once: true, slots: vec![(0, 55, 56, false), (6, 24, 24, false)], item: Some(0) },
        RosterView { on_field_once: false, slots: vec![], item: None },
        RosterView { on_field_once: false, slots: vec![], item: None },
        RosterView { on_field_once: false, slots: vec![], item: None },
    ];
    let log: Vec<String> = vec!["|move|p2a: Zap|Tackle|p1a: X".to_string()];
    o.observe(&frame, &log, &d);
    assert_eq!(o.revision(), 1);
    let mons = o.mons();
    assert!(mons[0].appeared);
    assert_eq!(mons[0].revealed_moves, vec![0]);
    // Lax lost its item (Some(1) -> None): the item it brought is now known
    assert_eq!(mons[1].item.original, Some(Some(1)));
    // nothing new: the revision stays
    o.observe(&frame, &log, &d);
    assert_eq!(o.revision(), 1);
}

#[test]
fn a_repeated_observe_changes_nothing_and_reveals_stay_prefixes() {
    let mut o = observer();
    let d = dex();
    let frame = vec![
        RosterView { on_field_once: true, slots: vec![(6, 23, 24, false), (0, 55, 56, false)], item: Some(0) },
        RosterView { on_field_once: false, slots: vec![], item: Some(1) },
        RosterView { on_field_once: false, slots: vec![], item: None },
        RosterView { on_field_once: false, slots: vec![], item: None },
    ];
    let mut log: Vec<String> = vec!["|move|p2a: Zap|Thunderbolt|p1a: X".to_string()];
    o.observe(&frame, &log, &d);
    let first = o.mons();
    assert_eq!(first[0].revealed_moves, vec![6, 0, 1]);
    let rev = o.revision();
    o.observe(&frame, &log, &d);
    assert_eq!(o.revision(), rev);
    let again = o.mons();
    for (a, b) in first.iter().zip(again.iter()) {
        assert_eq!(a.revealed_moves, b.revealed_moves);
        assert_eq!(a.appeared, b.appeared);
    }
    log.push("|move|p2a: Zap|Rest|p2a: Zap".to_string());
    o.observe(&frame, &log, &d);
    let later = o.mons();
    assert_eq!(later[0].revealed_moves[..3], first[0].revealed_moves[..]);
    assert_eq!(later[0].revealed_moves.len(), 4);
}

#[test]
fn mons_report_the_preview_facts() {
    let mut first = mon("Zap");
    first.species = 7;
    first.level = 55;
    first.gender = Gender::F;
    first.preview_has_item = false;
    let o = Observer::from_mons(0, vec![first, mon("Lax")], vec![None, None]);
    let mons = o.mons();
    assert_eq!((mons[0].species, mons[0].level, mons[0].preview_has_item), (7, 55, false));
    assert!(matches!(mons[0].gender, Gender::F));
    assert_eq!((mons[1].species, mons[1].level, mons[1].preview_has_item), (1, 50, true));
}
