use nc2000_bot::artifact::{
    records_fingerprint, summarize_rows, tagged_fingerprint, validate_merged, validate_run_identity,
    validate_shard, validate_unique_rows, MergeInfo, MergedArtifact, Row, RunIdentity,
    RuntimeDataFingerprints, Scope, SelectionConfig, ShardArtifact, ShardDescriptor, SolverConfig,
    FORMAL_PROFILE, MERGED_SCHEMA, SHARD_SCHEMA,
};
use nc2000_bot::artifact::{fnv1a64_update, FNV_OFFSET};

fn row(battle: usize, decision: usize, state: u128) -> Row {
    Row {
        battle,
        decision,
        side: battle % 2,
        turn: 7,
        human: "move rest".to_string(),
        exact_bits: 0.5f64.to_bits(),
        width_bits: 0.02f64.to_bits(),
        stop: 0,
        eval_bits: 0.4f64.to_bits(),
        alive0: 1,
        alive1: 1,
        total_hp: 42,
        state_key128: format!("{state:032x}"),
        desc: format!("b{battle}"),
    }
}

fn run() -> RunIdentity {
    RunIdentity {
        profile: FORMAL_PROFILE.to_string(),
        solver_build_fingerprint: "build".to_string(),
        generator_executable_fingerprint: "exe".to_string(),
        runtime_data: RuntimeDataFingerprints {
            dex: "dex".to_string(),
            meta_pool: "meta".to_string(),
            community_rentals: "rentals".to_string(),
            learnsets: "learnsets".to_string(),
        },
        corpus_fingerprint: "corpus".to_string(),
        corpus_count: 2,
        solver: SolverConfig::formal(),
        selection: SelectionConfig::formal(),
    }
}

#[test]
fn merged_requires_complete_ranges_and_summaries() {
    let rows = vec![row(0, 3, 1), row(1, 4, 2)];
    let shards = vec![
        ShardDescriptor { battle_lo: 0, battle_hi: 0, summary: summarize_rows(&rows[..1]) },
        ShardDescriptor { battle_lo: 1, battle_hi: 1, summary: summarize_rows(&rows[1..]) },
    ];
    let mut artifact = MergedArtifact {
        schema: MERGED_SCHEMA.to_string(),
        run: run(),
        merge: MergeInfo { shards, summary: summarize_rows(&rows) },
        rows,
    };
    validate_merged(&artifact).unwrap();
    artifact.rows.pop();
    assert!(validate_merged(&artifact).unwrap_err().message().contains("summary mismatch"));
}

#[test]
fn merged_rejects_cross_shard_state_duplicate() {
    let rows = vec![row(0, 3, 1), row(1, 4, 1)];
    let artifact = MergedArtifact {
        schema: MERGED_SCHEMA.to_string(),
        run: run(),
        merge: MergeInfo {
            shards: vec![
                ShardDescriptor { battle_lo: 0, battle_hi: 0, summary: summarize_rows(&rows[..1]) },
                ShardDescriptor { battle_lo: 1, battle_hi: 1, summary: summarize_rows(&rows[1..]) },
            ],
            summary: summarize_rows(&rows),
        },
        rows,
    };
    assert!(validate_merged(&artifact).unwrap_err().message().contains("duplicate state_key128"));
}

#[test]
fn fnv_of_empty_input_is_the_offset_basis() {
    assert_eq!(fnv1a64_update(FNV_OFFSET, &[]), 0xcbf2_9ce4_8422_2325);
    // FNV-1a 64 of "a" is a published test vector.
    assert_eq!(fnv1a64_update(FNV_OFFSET, b"a"), 0xaf63_dc4c_8601_ec8c);
}

#[test]
fn tagged_fingerprint_format() {
    let fp = tagged_fingerprint("tag", &vec![b"abc".to_vec()]);
    assert!(fp.starts_with("fnv1a64:"));
    assert!(fp.ends_with(":tag"));
    assert_eq!(fp.len(), "fnv1a64:".len() + 16 + ":tag".len());
    // length-prefixed parts: splitting the same bytes differently changes the hash
    let split = tagged_fingerprint("tag", &vec![b"a".to_vec(), b"bc".to_vec()]);
    assert_ne!(fp, split);
    let recs = records_fingerprint("tag", &vec![vec![b"a".to_vec()], vec![b"bc".to_vec()]]);
    assert!(recs.starts_with("fnv1a64:"));
}

#[test]
fn formal_run_identity_is_accepted_and_an_empty_field_is_named() {
    assert!(validate_run_identity(&run(), Scope::Merged).is_ok());
    let mut bad = run();
    bad.corpus_fingerprint = String::new();
    let err = validate_run_identity(&bad, Scope::Merged).unwrap_err();
    assert!(err.message().contains("corpus_fingerprint"), "{}", err.message());
    let mut wrong = run();
    wrong.profile = "nope".to_string();
    assert!(validate_run_identity(&wrong, Scope::Shard).is_err());
}

#[test]
fn unique_rows_reject_duplicates_and_bad_keys() {
    let rows = vec![row(0, 3, 1), row(0, 4, 2)];
    assert!(validate_unique_rows(&rows, Scope::Shard, true).is_ok());
    let dup = vec![row(0, 3, 1), row(0, 3, 2)];
    assert!(validate_unique_rows(&dup, Scope::Shard, true).is_err());
    let unsorted = vec![row(0, 4, 1), row(0, 3, 2)];
    assert!(validate_unique_rows(&unsorted, Scope::Shard, true).is_err());
    assert!(validate_unique_rows(&unsorted, Scope::Shard, false).is_ok());
    let mut bad_key = row(0, 3, 1);
    bad_key.state_key128 = "XYZ".to_string();
    assert!(validate_unique_rows(&vec![bad_key], Scope::Shard, false).is_err());
    let mut bad_side = row(0, 3, 1);
    bad_side.side = 2;
    assert!(validate_unique_rows(&vec![bad_side], Scope::Shard, false).is_err());
}

#[test]
fn a_consistent_shard_validates() {
    let rows = vec![row(0, 3, 1), row(0, 4, 2)];
    let summary = summarize_rows(&rows);
    assert_eq!(summary.row_count, 2);
    let shard = ShardArtifact {
        schema: SHARD_SCHEMA.to_string(),
        run: run(),
        shard: ShardDescriptor { battle_lo: 0, battle_hi: 0, summary },
        rows,
    };
    assert!(validate_shard(&shard).is_ok());
}

#[test]
fn summaries_ignore_row_order_for_distinct_coordinates() {
    let a = vec![row(2, 1, 7), row(0, 3, 9), row(1, 0, 7), row(0, 1, 5)];
    let b = vec![row(0, 1, 5), row(1, 0, 7), row(2, 1, 7), row(0, 3, 9)];
    let sa = summarize_rows(&a);
    let sb = summarize_rows(&b);
    assert_eq!(sa.row_count, sb.row_count);
    assert_eq!(sa.coordinate_fingerprint, sb.coordinate_fingerprint);
    assert_eq!(sa.state_fingerprint, sb.state_fingerprint);
    assert_eq!(sa.row_fingerprint, sb.row_fingerprint);
}
