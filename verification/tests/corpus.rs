use nc2000_bot::corpus::{collect_set_evidence, corpus_battle, extract_decisions, plain, HumanAction};

#[test]
fn evidence_excludes_generic_called_moves_but_keeps_sleep_talk_calls() {
    let lines: Vec<String> = vec![
        "|switch|p1a: Snorlax|Snorlax, L50, M|100/100".into(),
        "|move|p1a: Snorlax|Body Slam|p2a: Pikachu".into(),
        "|move|p1a: Snorlax|Thunder|p2a: Pikachu|[from] Metronome".into(),
        "|move|p1a: Snorlax|Rest|p1a: Snorlax|[from] Sleep Talk".into(),
        "|move|p1a: Snorlax|Pursuit|p2a: Pikachu|[from] Pursuit".into(),
        "|-enditem|p1a: Snorlax|Mint Berry|[eat]".into(),
    ];
    let evidence = collect_set_evidence(&lines);
    assert_eq!(evidence.moves(0, "", "snorlax"), ["bodyslam", "rest", "pursuit"]);
    let item = evidence.item(0, "", "snorlax").unwrap();
    assert_eq!(item.cut, 5);
    assert_eq!(item.item, "Mint Berry");
}

#[test]
fn transformed_moves_are_not_submitted_set_evidence_and_switch_or_replace_clears_it() {
    let switched: Vec<String> = vec![
        "|switch|p1a: Mew|Mew, L50|100/100".into(),
        "|move|p1a: Mew|Transform|p2a: Snorlax".into(),
        "|-transform|p1a: Mew|p2a: Snorlax".into(),
        "|move|p1a: Mew|Body Slam|p2a: Snorlax".into(),
        "|switch|p1a: Pikachu|Pikachu, L50|100/100".into(),
        "|switch|p1a: Mew|Mew, L50|100/100".into(),
        "|move|p1a: Mew|Psychic|p2a: Snorlax".into(),
    ];
    let evidence = collect_set_evidence(&switched);
    assert_eq!(evidence.moves(0, "Mew", "mew"), ["transform", "psychic"]);

    let replaced: Vec<String> = vec![
        "|switch|p1a: Mew|Mew, L50|100/100".into(),
        "|move|p1a: Mew|Transform|p2a: Snorlax".into(),
        "|-transform|p1a: Mew|p2a: Snorlax".into(),
        "|move|p1a: Mew|Body Slam|p2a: Snorlax".into(),
        "|replace|p1a: Mew|Mew, L50|100/100".into(),
        "|move|p1a: Mew|Psychic|p2a: Snorlax".into(),
    ];
    let evidence = collect_set_evidence(&replaced);
    assert_eq!(evidence.moves(0, "Mew", "mew"), ["transform", "psychic"]);
}

#[test]
fn evidence_unknown_mon_has_no_moves_and_no_item() {
    let lines: Vec<String> = vec!["|switch|p2a: Zap|Zapdos, L50|100/100".into()];
    let evidence = collect_set_evidence(&lines);
    assert!(evidence.moves(0, "Zap", "zapdos").is_empty());
    assert!(evidence.item(1, "Zap", "zapdos").is_none());
    assert_eq!(evidence.resolved_name(1, "", "zapdos"), "Zap");
    assert_eq!(evidence.resolved_name(0, "", "zapdos"), "");
    assert_eq!(evidence.resolved_name(1, "Other", "zapdos"), "Other");
}

#[test]
fn first_eaten_item_wins_and_repeated_moves_are_listed_once() {
    let lines: Vec<String> = vec![
        "|switch|p2a: Zap|Zapdos, L50|100/100".into(),
        "|move|p2a: Zap|Thunderbolt|p1a: X".into(),
        "|move|p2a: Zap|Thunderbolt|p1a: X".into(),
        "|move|p2a: Zap|Hidden Power Ice|p1a: X".into(),
        "|-enditem|p2a: Zap|Mint Berry|[eat]".into(),
        "|-enditem|p2a: Zap|Gold Berry|[eat]".into(),
        "|-enditem|p2a: Zap|Leftovers".into(),
    ];
    let evidence = collect_set_evidence(&lines);
    assert_eq!(evidence.moves(1, "Zap", "zapdos"), ["thunderbolt", "hiddenpower"]);
    let item = evidence.item(1, "Zap", "zapdos").unwrap();
    assert_eq!(item.cut, 4);
    assert_eq!(item.item, "Mint Berry");
}

#[test]
fn decisions_take_the_first_action_per_side_and_turn() {
    let lines: Vec<String> = vec![
        "|switch|p1a: A|Snorlax, L50|100/100".into(),
        "|turn|3".into(),
        "|move|p2a: B|Thunder|p1a: A".into(),
        "|move|p1a: A|Body Slam|p2a: B".into(),
        "|move|p1a: A|Rest|p1a: A".into(),
        "|turn|4".into(),
        "|switch|p1a: C|Mew, L50|100/100".into(),
        "|cant|p2a: B|slp".into(),
        "|move|p2a: B|Sleep Talk|p1a: C".into(),
        "|turn|5".into(),
        "|faint|p1a: C".into(),
        "|switch|p1a: A|Snorlax, L50|100/100".into(),
        "|move|p2a: B|Metronome|p1a: A".into(),
        "|move|p2a: B|Thunder|p1a: A|[from] Metronome".into(),
    ];
    let ds = extract_decisions(&lines);
    let got: Vec<(usize, u16, usize, String)> = ds
        .iter()
        .map(|d| {
            let a = match &d.action {
                HumanAction::Move(m) => format!("move {m}"),
                HumanAction::Switch(s) => format!("switch {s}"),
            };
            (d.side, d.turn, d.cut, a)
        })
        .collect();
    assert_eq!(
        got,
        vec![
            (1, 3, 1, "move thunder".to_string()),
            (0, 3, 1, "move bodyslam".to_string()),
            (0, 4, 5, "switch mew".to_string()),
            (1, 5, 9, "move metronome".to_string()),
        ]
    );
}

#[test]
fn decisions_before_the_first_turn_are_not_counted() {
    let lines: Vec<String> = vec!["|move|p1a: A|Tackle|p2a: B".into(), "|turn|x".into(), "|move|p1a: A|Tackle|p2a: B".into()];
    let ds = extract_decisions(&lines);
    assert_eq!(ds.len(), 1);
    assert_eq!(ds[0].turn, 0);
    assert_eq!(ds[0].cut, 1);
}

#[test]
fn corpus_battle_drops_noise_lines() {
    let text = "|j|Alice\r\n|t:|123\n|init|battle\n\n|turn|1\r\n|move|p1a: A|Surf|p2a: B\n";
    let b = corpus_battle(text);
    assert_eq!(b.lines, vec!["|turn|1".to_string(), "|move|p1a: A|Surf|p2a: B".to_string()]);
    assert_eq!(b.decisions.len(), 1);
    assert_eq!(b.decisions[0].cut, 0);
}

#[test]
fn plain_collapses_typed_hidden_power() {
    assert_eq!(plain("hiddenpowerfire"), "hiddenpower");
    assert_eq!(plain("hiddenpower"), "hiddenpower");
    assert_eq!(plain("surf"), "surf");
}
