use beatmap_stats::density::{analyze_density, max_window_size};
use beatmap_stats::identity::ContentHasher;
use beatmap_stats::normalize::{normalize_notes, NoteSection, RawDifficulty, RawNote};
use beatmap_stats::order::sort_beats;
use beatmap_stats::processor::{
    process_beatmap, CharacteristicInput, DifficultyInput, ManifestInput,
};
use beatmap_stats::ratio::{duration_minutes_seconds, Ratio};
use beatmap_stats::reconcile::{
    group_by_level, partition_pending, reconcile, run_pipeline, split_standard, ReferenceEntry,
};
use beatmap_stats::records::{difficulty_name, rank_name, Combo, ScoreRecord};
use beatmap_stats::table::{extract_row_cells, parse_decimal, parse_mmss};
use beatmap_stats::StatsError;
use sha1::Digest;

fn note_b(beat: u64) -> RawNote {
    RawNote { b: Some(beat), tb: None, time: None }
}

fn slider(head: u64, tail: u64) -> RawNote {
    RawNote { b: Some(head), tb: Some(tail), time: None }
}

fn note_time(t: u64) -> RawNote {
    RawNote { b: None, tb: None, time: Some(t) }
}

fn section(name: &str, notes: Vec<RawNote>) -> NoteSection {
    NoteSection { name: name.to_string(), notes }
}

fn v3_difficulty(color: Vec<RawNote>, sliders: Vec<RawNote>) -> RawDifficulty {
    RawDifficulty {
        version: Some("3.0.0".to_string()),
        sections: vec![
            section("colorNotes", color),
            section("bombNotes", vec![]),
            section("burstSliders", vec![]),
            section("sliders", sliders),
        ],
    }
}

fn score(level_id: &str, characteristic: &str, difficulty: u8) -> ScoreRecord {
    ScoreRecord {
        level_id: level_id.to_string(),
        characteristic: characteristic.to_string(),
        difficulty,
        play_count: 7,
        max_rank: 5,
        full_combo: false,
        max_combo: 321,
        high_score: 99999,
        valid_score: true,
    }
}

#[test]
fn normalizer_sorts_v3_categories() {
    let raw = v3_difficulty(
        vec![note_b(3000), note_b(1000)],
        vec![slider(2000, 5000)],
    );
    let notes = normalize_notes(&raw).unwrap();
    assert_eq!(notes, vec![1000, 2000, 3000, 5000]);
}

#[test]
fn normalizer_v26_gathers_notes_and_sliders() {
    let raw = RawDifficulty {
        version: Some("2.6.0".to_string()),
        sections: vec![
            section("_notes", vec![note_b(4000), note_b(2000)]),
            section("_sliders", vec![slider(1000, 9000)]),
        ],
    };
    let notes = normalize_notes(&raw).unwrap();
    assert_eq!(notes, vec![1000, 2000, 4000, 9000]);
}

#[test]
fn normalizer_v2_flat_uses_time_field() {
    let raw = RawDifficulty {
        version: Some("2.0.0".to_string()),
        sections: vec![section("_notes", vec![note_time(5000), note_time(1500)])],
    };
    let notes = normalize_notes(&raw).unwrap();
    assert_eq!(notes, vec![1500, 5000]);
}

#[test]
fn normalizer_missing_version_means_flat_schema() {
    let raw = RawDifficulty {
        version: None,
        sections: vec![section("_notes", vec![note_time(700)])],
    };
    let notes = normalize_notes(&raw).unwrap();
    assert_eq!(notes, vec![700]);
}

#[test]
fn normalizer_rejects_unknown_version_prefix() {
    let raw = RawDifficulty {
        version: Some("4.0.0".to_string()),
        sections: vec![],
    };
    assert_eq!(normalize_notes(&raw).unwrap_err(), StatsError::UnsupportedSchema);
}

#[test]
fn normalizer_rejects_missing_category() {
    let raw = RawDifficulty {
        version: Some("3.0.0".to_string()),
        sections: vec![section("colorNotes", vec![note_b(1)])],
    };
    assert_eq!(normalize_notes(&raw).unwrap_err(), StatsError::MissingRequiredField);
}

#[test]
fn normalizer_rejects_note_without_required_field() {
    let raw = v3_difficulty(vec![note_time(5)], vec![]);
    assert_eq!(normalize_notes(&raw).unwrap_err(), StatsError::MissingRequiredField);
}

#[test]
fn sort_beats_orders_duplicates_too() {
    let sorted = sort_beats(&vec![5, 1, 5, 0]);
    assert_eq!(sorted, vec![0, 1, 5, 5]);
}

#[test]
fn density_two_notes_at_120_bpm() {
    // Two notes at beats 0 and 2, 120 beats per minute: a one-second span
    // and two notes per second.
    let stats = analyze_density(&vec![0, 2000], 120_000).unwrap();
    assert_eq!(stats.note_count, 2);
    assert_eq!(stats.duration, Ratio { num: 120_000, den: 120_000 });
    assert_eq!(stats.nps, Ratio { num: 240_000, den: 120_000 });
    assert_eq!(duration_minutes_seconds(&stats.duration), (0, 1));
}

#[test]
fn density_empty_sequence_is_unmeasured() {
    assert!(analyze_density(&vec![], 120_000).is_none());
}

#[test]
fn density_single_note_counts_a_window_of_one() {
    let stats = analyze_density(&vec![4000], 120_000).unwrap();
    assert_eq!(stats.note_count, 1);
    assert_eq!(stats.np10s, Ratio { num: 10, den: 100 });
    assert_eq!(stats.duration, Ratio { num: 0, den: 120_000 });
}

#[test]
fn window_counts_notes_within_ten_seconds() {
    // At 120 beats per minute, ten seconds span 20 beats. Beats 0, 10 and
    // 19 fit in one window; beat 21 does not.
    let notes = vec![0, 10_000, 19_000, 21_000];
    assert_eq!(max_window_size(&notes, 120_000), 3);
}

#[test]
fn window_of_spread_notes_is_one() {
    let notes = vec![0, 100_000, 200_000];
    assert_eq!(max_window_size(&notes, 120_000), 1);
}

#[test]
fn duplicating_notes_does_not_decrease_window_density() {
    let notes = vec![0, 10_000, 19_000, 21_000];
    let mut doubled = Vec::new();
    for n in &notes {
        doubled.push(*n);
        doubled.push(*n);
    }
    let doubled = sort_beats(&doubled);
    let before = max_window_size(&notes, 120_000);
    let after = max_window_size(&doubled, 120_000);
    assert!(after >= before);
    assert_eq!(after, 6);
}

#[test]
fn identity_is_deterministic() {
    let mut h1 = ContentHasher::new();
    h1.update(&b"manifest".to_vec());
    h1.update(&b"difficulty".to_vec());
    let mut h2 = ContentHasher::new();
    h2.update(&b"manifest".to_vec());
    h2.update(&b"difficulty".to_vec());
    assert_eq!(h1.finalize(), h2.finalize());
}

#[test]
fn identity_matches_the_digest_scheme() {
    let mut h = ContentHasher::new();
    h.update(&b"manifest".to_vec());
    h.update(&b"difficulty".to_vec());
    let mut reference = sha1::Sha1::new();
    reference.update(b"manifestdifficulty");
    let expected = format!("custom_level_{}", hex::encode_upper(reference.finalize()));
    assert_eq!(h.finalize(), expected);
}

#[test]
fn identity_differs_for_different_bytes() {
    let mut h1 = ContentHasher::new();
    h1.update(&b"a".to_vec());
    let mut h2 = ContentHasher::new();
    h2.update(&b"b".to_vec());
    assert_ne!(h1.finalize(), h2.finalize());
}

fn one_difficulty_manifest(raw: RawDifficulty, rank: u64) -> ManifestInput {
    ManifestInput {
        song: "Song".to_string(),
        artist: "Artist".to_string(),
        mapper: "Mapper".to_string(),
        bpm: 120_000,
        environment: "Default".to_string(),
        bytes: b"manifest".to_vec(),
        sets: vec![CharacteristicInput {
            name: "Standard".to_string(),
            difficulties: vec![DifficultyInput { rank, bytes: b"difficulty".to_vec(), raw }],
        }],
    }
}

#[test]
fn processor_round_trip_two_notes() {
    // One "Standard" characteristic, one "Expert" difficulty (rank six),
    // schema "3.0.0", notes at beats 0 and 2, 120 beats per minute.
    let manifest = one_difficulty_manifest(
        v3_difficulty(vec![note_b(0), note_b(2000)], vec![]),
        6,
    );
    let rec = process_beatmap(&manifest, &vec![]).unwrap();
    let mut reference = sha1::Sha1::new();
    reference.update(b"manifestdifficulty");
    assert_eq!(rec.id, format!("custom_level_{}", hex::encode_upper(reference.finalize())));
    assert_eq!(rec.song, "Song");
    assert_eq!(rec.bpm, 120_000);
    assert_eq!(rec.duration, Ratio { num: 120_000, den: 120_000 });
    assert_eq!(rec.characteristics.len(), 1);
    let c = &rec.characteristics[0];
    assert_eq!(c.name, "Standard");
    let slot = c.slots[3].as_ref().unwrap();
    assert_eq!(slot.note_count, Some(2));
    assert_eq!(slot.nps, Some(Ratio { num: 240_000, den: 120_000 }));
    assert!(c.slots[0].is_none());
    assert!(c.slots[4].is_none());
}

#[test]
fn processor_empty_beatmap_leaves_density_unset() {
    let manifest = one_difficulty_manifest(v3_difficulty(vec![], vec![]), 0);
    let rec = process_beatmap(&manifest, &vec![]).unwrap();
    assert_eq!(rec.duration.num, 0);
    let slot = rec.characteristics[0].slots[0].as_ref().unwrap();
    assert_eq!(slot.note_count, None);
    assert_eq!(slot.nps, None);
    assert_eq!(slot.np10s, None);
}

#[test]
fn processor_rejects_duplicate_difficulty() {
    let mut manifest = one_difficulty_manifest(v3_difficulty(vec![note_b(0)], vec![]), 6);
    manifest.sets[0].difficulties.push(DifficultyInput {
        rank: 7,
        bytes: b"other".to_vec(),
        raw: v3_difficulty(vec![note_b(5)], vec![]),
    });
    assert_eq!(process_beatmap(&manifest, &vec![]).unwrap_err(), StatsError::DuplicateDifficulty);
}

#[test]
fn processor_merges_matching_score() {
    let manifest = one_difficulty_manifest(
        v3_difficulty(vec![note_b(0), note_b(2000)], vec![]),
        6,
    );
    let mut reference = sha1::Sha1::new();
    reference.update(b"manifestdifficulty");
    let id = format!("custom_level_{}", hex::encode_upper(reference.finalize()));
    let mut s = score(&id, "Standard", 3);
    s.full_combo = true;
    let rec = process_beatmap(&manifest, &vec![s]).unwrap();
    let slot = rec.characteristics[0].slots[3].as_ref().unwrap();
    assert!(slot.valid);
    assert_eq!(slot.plays, 7);
    assert_eq!(slot.rank, Some(5));
    assert_eq!(slot.combo, Combo::FullCombo);
    assert_eq!(slot.score, 99999);
    assert_eq!(slot.note_count, Some(2));
}

#[test]
fn processor_skips_score_for_undefined_slot() {
    let manifest = one_difficulty_manifest(
        v3_difficulty(vec![note_b(0), note_b(2000)], vec![]),
        6,
    );
    let mut reference = sha1::Sha1::new();
    reference.update(b"manifestdifficulty");
    let id = format!("custom_level_{}", hex::encode_upper(reference.finalize()));
    let s = score(&id, "OneSaber", 3);
    let rec = process_beatmap(&manifest, &vec![s]).unwrap();
    let slot = rec.characteristics[0].slots[3].as_ref().unwrap();
    assert!(!slot.valid);
    assert_eq!(slot.score, 0);
    assert_eq!(slot.combo, Combo::Unset);
}

fn table_entry(level_id: &str) -> ReferenceEntry {
    ReferenceEntry {
        level_id: level_id.to_string(),
        song: "Table Song".to_string(),
        artist: "Table Artist".to_string(),
        mapper: "Table Mapper".to_string(),
        bpm: 100_000,
        environment: "Env".to_string(),
        duration: Ratio { num: 330, den: 1 },
        nps: vec![
            Ratio { num: 1, den: 1 },
            Ratio { num: 2, den: 1 },
            Ratio { num: 3, den: 1 },
            Ratio { num: 4, den: 1 },
            Ratio { num: 5, den: 1 },
        ],
        notes: vec![10, 20, 30, 40, 50],
    }
}

#[test]
fn reconcile_standard_only_leaves_no_orphan() {
    // A table-known identity whose pending scores are all "Standard" is
    // resolved entirely by the reference path.
    let pending = vec![score("level_a", "Standard", 2)];
    let out = reconcile(&pending, &vec![table_entry("level_a")]);
    assert_eq!(out.len(), 1);
    let rec = &out[0];
    assert_eq!(rec.id, "level_a");
    assert_eq!(rec.song, "Table Song");
    let slot = rec.characteristics[0].slots[2].as_ref().unwrap();
    assert_eq!(slot.nps, Some(Ratio { num: 3, den: 1 }));
    assert_eq!(slot.note_count, Some(30));
    assert_eq!(slot.np10s, None);
    assert_eq!(slot.plays, 7);
}

#[test]
fn reconcile_mixed_characteristics_keeps_both_records() {
    // A table-known identity with "Standard" and "OneSaber" scores yields
    // a reference record and an orphan record for the same identity.
    let pending = vec![score("level_a", "Standard", 2), score("level_a", "OneSaber", 1)];
    let out = reconcile(&pending, &vec![table_entry("level_a")]);
    assert_eq!(out.len(), 2);
    assert_eq!(out[0].id, "level_a");
    assert_eq!(out[1].id, "level_a");
    assert_eq!(out[0].song, "Table Song");
    assert_eq!(out[1].song, "");
    assert_eq!(out[0].characteristics[0].name, "Standard");
    assert_eq!(out[1].characteristics[0].name, "OneSaber");
    assert!(out[1].characteristics[0].slots[1].is_some());
}

#[test]
fn reconcile_unknown_identity_becomes_orphan() {
    let pending = vec![score("level_b", "Standard", 4)];
    let out = reconcile(&pending, &vec![table_entry("level_a")]);
    assert_eq!(out.len(), 1);
    let rec = &out[0];
    assert_eq!(rec.id, "level_b");
    assert_eq!(rec.song, "");
    assert_eq!(rec.bpm, 0);
    assert_eq!(rec.duration.num, 0);
    let slot = rec.characteristics[0].slots[4].as_ref().unwrap();
    assert_eq!(slot.nps, None);
    assert_eq!(slot.plays, 7);
}

#[test]
fn reconcile_resolves_every_score_once() {
    let pending = vec![
        score("level_a", "Standard", 0),
        score("level_a", "OneSaber", 0),
        score("level_b", "Lawless", 1),
    ];
    let out = reconcile(&pending, &vec![table_entry("level_a")]);
    for s in &pending {
        let mut hits = 0;
        for rec in &out {
            if rec.id == s.level_id {
                for c in &rec.characteristics {
                    if c.name == s.characteristic {
                        if let Some(slot) = &c.slots[s.difficulty as usize] {
                            assert_eq!(slot.plays, s.play_count);
                            hits += 1;
                        }
                    }
                }
            }
        }
        assert_eq!(hits, 1);
    }
}

#[test]
fn partition_pending_drops_processed_identities() {
    let manifest = one_difficulty_manifest(v3_difficulty(vec![note_b(0)], vec![]), 0);
    let rec = process_beatmap(&manifest, &vec![]).unwrap();
    let id = rec.id.clone();
    let scores = vec![score(&id, "Standard", 0), score("gone", "Standard", 0)];
    let pending = partition_pending(&scores, &vec![rec]);
    assert_eq!(pending.len(), 1);
    assert_eq!(pending[0].level_id, "gone");
}

#[test]
fn group_by_level_groups_by_identity() {
    let scores = vec![
        score("a", "Standard", 0),
        score("b", "Standard", 0),
        score("a", "OneSaber", 1),
    ];
    let groups = group_by_level(&scores);
    assert_eq!(groups.len(), 2);
    assert_eq!(groups[0].level_id, "a");
    assert_eq!(groups[0].scores.len(), 2);
    assert_eq!(groups[1].level_id, "b");
}

#[test]
fn split_standard_partitions_by_characteristic() {
    let scores = vec![
        score("a", "Standard", 0),
        score("a", "OneSaber", 1),
        score("a", "Standard", 2),
    ];
    let (std_part, rest) = split_standard(&scores);
    assert_eq!(std_part.len(), 2);
    assert_eq!(rest.len(), 1);
    assert_eq!(rest[0].characteristic, "OneSaber");
}

#[test]
fn parse_decimal_accepts_digits_only() {
    assert_eq!(parse_decimal("123"), Some(123));
    assert_eq!(parse_decimal("0"), Some(0));
    assert_eq!(parse_decimal(""), None);
    assert_eq!(parse_decimal("12a"), None);
    assert_eq!(parse_decimal("99999999999999999999999"), None);
}

#[test]
fn parse_mmss_reads_minutes_and_seconds() {
    assert_eq!(parse_mmss(&"05:30".to_string()), Some(330));
    assert_eq!(parse_mmss(&"0:59".to_string()), Some(59));
    assert_eq!(parse_mmss(&"530".to_string()), None);
    assert_eq!(parse_mmss(&":30".to_string()), None);
}

#[test]
fn extract_row_cells_reads_fixed_columns() {
    let mut cells: Vec<String> = (0..47).map(|i| format!("c{}", i)).collect();
    cells[46] = "the_id".to_string();
    let row = extract_row_cells(&cells).unwrap();
    assert_eq!(row.song, "c0");
    assert_eq!(row.artist, "c1");
    assert_eq!(row.mapper, "c2");
    assert_eq!(row.bpm_text, "c3");
    assert_eq!(row.environment, "c4");
    assert_eq!(row.duration_text, "c5");
    assert_eq!(row.level_id, "the_id");
    // Difficulty block zero starts at column 5; its density cells sit at
    // offsets seven and eight.
    assert_eq!(row.blocks[0].nps_text, "c12");
    assert_eq!(row.blocks[0].notes_text, "c13");
    assert_eq!(row.blocks[4].nps_text, "c44");
    assert_eq!(row.blocks[4].notes_text, "c45");
    assert!(extract_row_cells(&vec!["short".to_string()]).is_none());
}

#[test]
fn fixed_tables_hold_the_documented_labels() {
    let diffs: Vec<String> = (0usize..5).map(difficulty_name).collect();
    assert_eq!(diffs, vec!["Easy", "Normal", "Hard", "Expert", "Expert+"]);
    let ranks: Vec<String> = (0usize..8).map(rank_name).collect();
    assert_eq!(ranks, vec!["E", "D", "C", "B", "A", "S", "SS", "SSS"]);
}

#[test]
fn error_kinds_describe_themselves() {
    assert_eq!(StatsError::UnsupportedSchema.describe(), "unsupported schema version");
    assert_eq!(StatsError::DuplicateDifficulty.describe(), "duplicate difficulty entry");
    assert_eq!(StatsError::MissingRequiredField.describe(), "missing required field");
    assert_eq!(StatsError::MissingOrMalformedFile.describe(), "missing or malformed file");
}

#[test]
fn ratio_comparison_and_floor() {
    let a = Ratio { num: 1, den: 2 };
    let b = Ratio { num: 2, den: 3 };
    assert!(a.le(&b));
    assert!(!b.le(&a));
    assert_eq!(Ratio { num: 330, den: 1 }.floor(), 330);
    assert_eq!(duration_minutes_seconds(&Ratio { num: 330, den: 1 }), (5, 30));
}

#[test]
fn pipeline_combines_local_and_reconciled_records() {
    let manifest = one_difficulty_manifest(
        v3_difficulty(vec![note_b(0), note_b(2000)], vec![]),
        6,
    );
    let mut reference = sha1::Sha1::new();
    reference.update(b"manifestdifficulty");
    let local_id = format!("custom_level_{}", hex::encode_upper(reference.finalize()));
    let scores = vec![score(&local_id, "Standard", 3), score("elsewhere", "Standard", 1)];
    let out = run_pipeline(&vec![manifest], &scores, &vec![table_entry("elsewhere")]).unwrap();
    assert_eq!(out.len(), 2);
    assert_eq!(out[0].id, local_id);
    let local_slot = out[0].characteristics[0].slots[3].as_ref().unwrap();
    assert_eq!(local_slot.plays, 7);
    assert_eq!(local_slot.note_count, Some(2));
    assert_eq!(out[1].id, "elsewhere");
    assert_eq!(out[1].song, "Table Song");
    assert!(out[1].characteristics[0].slots[1].is_some());
}

#[test]
fn pipeline_fails_fast_on_a_malformed_beatmap() {
    let bad = one_difficulty_manifest(
        RawDifficulty { version: Some("9.9".to_string()), sections: vec![] },
        0,
    );
    let err = run_pipeline(&vec![bad], &vec![], &vec![]).unwrap_err();
    assert_eq!(err, StatsError::UnsupportedSchema);
}

#[test]
fn parse_mmss_rejects_non_digits_and_overflow() {
    assert_eq!(parse_mmss(&"aa:bb".to_string()), None);
    assert_eq!(parse_mmss(&"5:3x".to_string()), None);
    assert_eq!(parse_mmss(&"99999999999999999999:00".to_string()), None);
    assert_eq!(parse_mmss(&"05:".to_string()), None);
}

#[test]
fn pipeline_skipped_score_appears_nowhere() {
    // A score against a (characteristic, difficulty) slot its local beatmap
    // no longer defines is skipped: it lands in no record at all.
    let manifest = one_difficulty_manifest(
        v3_difficulty(vec![note_b(0), note_b(2000)], vec![]),
        6,
    );
    let mut reference = sha1::Sha1::new();
    reference.update(b"manifestdifficulty");
    let local_id = format!("custom_level_{}", hex::encode_upper(reference.finalize()));
    let stale = score(&local_id, "Standard", 0);
    let out = run_pipeline(&vec![manifest], &vec![stale.clone()], &vec![]).unwrap();
    assert_eq!(out.len(), 1);
    for rec in &out {
        for c in &rec.characteristics {
            if c.name == stale.characteristic {
                assert!(c.slots[stale.difficulty as usize].is_none());
            }
        }
    }
}
