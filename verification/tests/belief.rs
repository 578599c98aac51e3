use nc2000_bot::belief::{align_refs, alive_candidates, consistent, move_matches, RefMon};
use nc2000_bot::observe::{Gender, ItemObs, MonObs};

fn keys() -> Vec<String> {
    ["tackle", "hiddenpower", "hiddenpowerfire", "rest", "bodyslam"].iter().map(|s| s.to_string()).collect()
}

fn obs(species: usize, revealed: &[usize], original: Option<Option<usize>>) -> MonObs {
    MonObs {
        species,
        level: 50,
        gender: Gender::M,
        name: String::new(),
        preview_has_item: true,
        revealed_moves: revealed.to_vec(),
        item: ItemObs { original, current: None, gained: false },
        appeared: true,
    }
}

fn refmon(species: usize, item: Option<usize>, moves: &[usize]) -> RefMon {
    RefMon { species, level: 50, gender: Gender::M, item, moves: moves.to_vec() }
}

#[test]
fn plain_hidden_power_reveals_match_any_typed_one() {
    let k = keys();
    assert!(move_matches(&k, 2, 1));
    assert!(move_matches(&k, 3, 3));
    assert!(!move_matches(&k, 1, 2));
    assert!(!move_matches(&k, 0, 1));
    assert!(!move_matches(&k, 9, 1));
}

#[test]
fn consistency_needs_every_reveal_and_the_original_item() {
    let k = keys();
    let team = vec![refmon(7, Some(3), &[0, 2, 3])];
    assert!(consistent(&k, &team, &[obs(7, &[0, 1], None)]));
    assert!(!consistent(&k, &team, &[obs(7, &[4], None)]));
    assert!(consistent(&k, &team, &[obs(7, &[], Some(Some(3)))]));
    assert!(!consistent(&k, &team, &[obs(7, &[], Some(None))]));
    assert!(!consistent(&k, &team, &[obs(7, &[], Some(Some(4)))]));
}

#[test]
fn the_alive_set_only_shrinks_as_reveals_arrive() {
    let k = keys();
    let cands = vec![
        Some(vec![refmon(7, Some(3), &[0, 3])]),
        None,
        Some(vec![refmon(7, Some(3), &[4, 3])]),
        Some(vec![refmon(7, Some(3), &[3])]),
    ];
    let before = alive_candidates(&k, &cands, &[obs(7, &[3], None)]);
    assert_eq!(before, vec![0, 2, 3]);
    let after = alive_candidates(&k, &cands, &[obs(7, &[3, 4], None)]);
    assert_eq!(after, vec![2]);
    assert!(after.iter().all(|x| before.contains(x)));
}

#[test]
fn alignment_takes_the_first_free_matching_mon() {
    let roster = vec![refmon(5, Some(1), &[]), refmon(7, Some(1), &[]), refmon(7, Some(2), &[])];
    let mons = vec![obs(7, &[], None), obs(7, &[], None), obs(5, &[], None)];
    assert_eq!(align_refs(&roster, &mons), Some(vec![1, 2, 0]));
    let mut no_item = obs(5, &[], None);
    no_item.preview_has_item = false;
    assert_eq!(align_refs(&roster, &[obs(7, &[], None), obs(7, &[], None), no_item]), None);
    assert_eq!(align_refs(&roster, &mons[..2]), None);
}
