use nc2000_bot::preview::{roster_sig, SigMon};
use nc2000_bot::preview::{action_index, canonical_triple, preview_actions, PreviewMode};

#[test]
fn action_space_is_canonical() {
    let acts = preview_actions();
    assert_eq!(acts.len(), 60);
    for (i, a) in acts.iter().enumerate() {
        assert!(a[1] < a[2], "bench not ascending: {a:?}");
        assert_ne!(a[0], a[1]);
        assert_ne!(a[0], a[2]);
        assert_eq!(action_index(&acts, *a), Some(i));
        // the non-canonical ordering maps to the same index
        assert_eq!(action_index(&acts, [a[0], a[2], a[1]]), Some(i));
    }
}

#[test]
fn canonical_triple_sorts_the_bench_only() {
    assert_eq!(canonical_triple([5, 6, 1]), [5, 1, 6]);
    assert_eq!(canonical_triple([2, 1, 3]), [2, 1, 3]);
    assert_eq!(canonical_triple([1, 2, 3]), [1, 2, 3]);
}

#[test]
fn the_first_action_leads_with_slot_one() {
    let acts = preview_actions();
    assert_eq!(acts[0], [1, 2, 3]);
    assert_eq!(action_index(&acts, [1, 1, 1]), None);
    assert_eq!(action_index(&acts, [7, 1, 2]), None);
}

#[test]
fn preview_agent_names() {
    assert_eq!(PreviewMode::Mixed.baked_name("skuct"), "baked(skuct)");
    assert_eq!(PreviewMode::Argmax.baked_name("skuct"), "bakedarg(skuct)");
    assert_eq!(PreviewMode::Mixed.counter_name("mcts"), "counter(mcts)");
    assert_eq!(PreviewMode::Argmax.counter_name("mcts"), "counterarg(mcts)");
}

fn sig_mon(species: u16, level: u8, item: Option<u16>, moves: &[u16]) -> SigMon {
    SigMon { species, level, item, moves: moves.to_vec() }
}

#[test]
fn roster_signature_sorts_entries_and_moves() {
    let sig = roster_sig(&[sig_mon(5, 50, Some(3), &[9, 2]), sig_mon(1, 55, None, &[4, 1, 7, 3])]);
    assert_eq!(sig, vec![(1, 55, 0, [1, 3, 4, 7]), (5, 50, 4, [0, 0, 2, 9])]);
}

#[test]
fn roster_signature_ignores_roster_and_move_order() {
    let a = roster_sig(&[sig_mon(5, 50, Some(3), &[9, 2]), sig_mon(1, 55, None, &[4, 1, 7, 3]), sig_mon(5, 50, Some(3), &[1])]);
    let b = roster_sig(&[sig_mon(5, 50, Some(3), &[1]), sig_mon(1, 55, None, &[3, 7, 1, 4]), sig_mon(5, 50, Some(3), &[2, 9])]);
    assert_eq!(a, b);
    assert_eq!(a.len(), 3);
}
