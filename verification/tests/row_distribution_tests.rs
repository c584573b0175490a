use latte::alternator_error::AlternatorErrorKind;
use latte::registry::get_partition_info;
use latte::registry::init_partition_row_distribution_preset;
use latte::registry::PresetRegistry;
use latte::row_distribution::PartitionGroup;

fn init_and_use_partition_row_distribution_preset(
    row_count: u64,
    rows_per_partitions_base_and_groups_mapping: Vec<(u64, String)>,
    expected_partition_groups: Vec<PartitionGroup>,
    expected_idx_partition_idx_mapping: Vec<(u64, u64)>,
) {
    for (rows_per_partitions_base, rows_per_partitions_groups) in
        rows_per_partitions_base_and_groups_mapping
    {
        let mut registry = PresetRegistry::new();
        let preset_name = "foo_name";

        assert!(
            registry.is_empty(),
            "The preset registry should be empty before initialization"
        );

        let result = init_partition_row_distribution_preset(
            &mut registry,
            preset_name,
            row_count,
            rows_per_partitions_base,
            &rows_per_partitions_groups,
        );
        assert!(result.is_ok(), "preset creation failed");

        assert!(
            !registry.is_empty(),
            "The preset registry should not be empty after initialization"
        );
        let actual_preset = registry
            .get(preset_name)
            .unwrap_or_else(|| panic!("Preset with name '{preset_name}' was not found"));
        assert_eq!(expected_partition_groups, actual_preset.partition_groups);

        for (idx, expected_partition_idx) in expected_idx_partition_idx_mapping.clone() {
            let (p_idx, _p_size) = get_partition_info(&registry, preset_name, idx)
                .expect("Failed to get partition index");
            assert_eq!(
                expected_partition_idx, p_idx,
                "Using '{}' idx expected partition_idx is '{}', but got '{}'",
                idx, expected_partition_idx, p_idx
            );
        }
    }
}

fn false_input_for_partition_row_distribution_preset(
    preset_name: String,
    row_count: u64,
    rows_per_partitions_base: u64,
    rows_per_partitions_groups: String,
) {
    let mut registry = PresetRegistry::new();
    let result = init_partition_row_distribution_preset(
        &mut registry,
        &preset_name,
        row_count,
        rows_per_partitions_base,
        &rows_per_partitions_groups,
    );

    assert!(
        matches!(result, Err(ref _e)),
        "Error result was expected, but got an accepted preset"
    );
    assert!(registry.is_empty(), "a rejected preset must not be stored");
}

#[test]
fn test_partition_row_distribution_preset_01_pos_single_group_evenly_divisible() {
    // total_partitions=40, total_rows=1000, partitions/rows -> 40(~100%):25
    init_and_use_partition_row_distribution_preset(
        1000,
        vec![(25, "100:1".to_string())],
        vec![PartitionGroup {
            n_rows_per_group: 1000,
            n_partitions: 40,
            n_rows_per_partition: 25,
        }],
        vec![
            (0, 0),
            (1, 1),
            (2, 2),
            (39, 39),
            (40, 0),
            (41, 1),
            (42, 2),
            (999, 39),
            (1000, 0),
            (1001, 1),
            (1039, 39),
            (1040, 0),
            (1999, 39),
            (2000, 0),
            (2001, 1),
            (2039, 39),
            (2040, 0),
            (2999, 39),
        ],
    );
}

#[test]
fn test_partition_row_distribution_preset_02_pos_single_group_unevenly_divisible() {
    // total_partitions=77, total_rows=1000, partitions/rows -> 76(~98.71%):13, 1(~1.29%):12
    init_and_use_partition_row_distribution_preset(
        1000,
        vec![(13, "100:1".to_string())],
        vec![
            PartitionGroup {
                n_rows_per_group: 988,
                n_partitions: 76,
                n_rows_per_partition: 13,
            },
            PartitionGroup {
                n_rows_per_group: 12,
                n_partitions: 1,
                n_rows_per_partition: 12,
            },
        ],
        vec![
            // 'stress_idx/rows_count' < 1
            // 4 cycles 83+1
            (0, 0),
            (75, 75),
            (76, 0),
            (77, 1),
            (82, 6),
            (83, 76),
            (84, 7),
            (85, 8),
            (152, 75),
            (153, 0),
            (166, 13),
            (167, 76),
            (168, 14),
            (169, 15),
            (229, 75),
            (230, 0),
            (250, 20),
            (251, 76),
            (252, 21),
            (253, 22),
            (306, 75),
            (307, 0),
            (334, 27),
            (335, 76),
            // 8 cycles 82+1
            (336, 28),
            (337, 29),
            (383, 75),
            (384, 0),
            (417, 33),
            (418, 76),
            (419, 34),
            (420, 35),
            (460, 75),
            (461, 0),
            (500, 39),
            (501, 76),
            (502, 40),
            (503, 41),
            (537, 75),
            (538, 0),
            (583, 45),
            (584, 76),
            (585, 46),
            (586, 47),
            (614, 75),
            (615, 0),
            (666, 51),
            (667, 76),
            (668, 52),
            (669, 53),
            (691, 75),
            (692, 0),
            (749, 57),
            (750, 76),
            (751, 58),
            (752, 59),
            (768, 75),
            (769, 0),
            (832, 63),
            (833, 76),
            (834, 64),
            (835, 65),
            (845, 75),
            (846, 0),
            (915, 69),
            (916, 76),
            (917, 70),
            (918, 71),
            (922, 75),
            (923, 0),
            (998, 75),
            (999, 76),
            // 1 <= 'stress_idx/rows_count' < 2
            (1000, 0),
            (1075, 75),
            (1076, 0),
            (1077, 1),
            (1082, 6),
            (1083, 76),
            (1917, 70),
            (1918, 71),
            (1922, 75),
            (1923, 0),
            (1998, 75),
            (1999, 76),
            // 2 <= 'stress_idx/rows_count' < 3
            (2000, 0),
            (2075, 75),
            (2076, 0),
            (2077, 1),
            (2082, 6),
            (2083, 76),
            (2917, 70),
            (2918, 71),
            (2922, 75),
            (2923, 0),
            (2998, 75),
            (2999, 76),
        ],
    );
}

#[test]
fn test_partition_row_distribution_preset_03_pos_multiple_groups_with_implicit_one() {
    // total_partitions=90, total_rows=1000,
    //   partitions/rows -> 46(~51.11%):6, 26(~28.88%):12, 17(~18.88%):24, 1(~1.11%):4
    init_and_use_partition_row_distribution_preset(
        1000,
        vec![
            (6, "50:1,30:2,20:4".to_string()),
            (12, "50:0.5,30:1,20:2".to_string()),
            (24, "50:0.25,30:0.5,20:1".to_string()),
        ],
        vec![
            PartitionGroup {
                n_rows_per_group: 408,
                n_partitions: 17,
                n_rows_per_partition: 24,
            },
            PartitionGroup {
                n_rows_per_group: 312,
                n_partitions: 26,
                n_rows_per_partition: 12,
            },
            PartitionGroup {
                n_rows_per_group: 276,
                n_partitions: 46,
                n_rows_per_partition: 6,
            },
            PartitionGroup {
                n_rows_per_group: 4,
                n_partitions: 1,
                n_rows_per_partition: 4,
            },
        ],
        vec![
            // 1) Partitions 0-16, 24 rows each. 1 cycle of 12+16, then 16 cycles of 11+16
            (0, 0),
            (1, 1),
            (11, 11),
            (28, 12),
            (32, 16),
            (33, 0),
            (34, 1),
            (38, 5),
            (55, 6),
            (56, 7),
            (65, 16),
            (82, 0),
            (83, 1),
            (92, 10),
            (109, 11),
            (114, 16),
            (115, 0),
            (119, 4),
            (136, 5),
            (146, 15),
            (163, 16),
            (164, 0),
            (165, 1),
            (173, 9),
            // 2) Partitions 17-42, 12 rows each. 2 cycles of 32+28 then 8 cycles of 31+28
            (12, 17),
            (27, 32),
            (39, 33),
            (48, 42),
            (49, 17),
            (54, 22),
            (105, 23),
            (108, 26),
            (120, 27),
            (135, 42),
            (147, 17),
            (158, 28),
            (209, 29),
            (216, 36),
            (228, 37),
            (233, 42),
            (234, 17),
            (243, 26),
            (255, 27),
            (261, 33),
            // 3) Partitions 43-88 , 6 rows each. 4 cycles 69+1
            (66, 43),
            (81, 58),
            (93, 59),
            (104, 70),
            (159, 71),
            (162, 74),
            (174, 75),
            (187, 88),
            (188, 43),
            (189, 44),
            (201, 45),
            (208, 52),
            (262, 53),
            (270, 61),
            (282, 62),
            (285, 65),
            (287, 66),
            (297, 76),
            // 4) Partition 89, 4 rows.
            (286, 89),
            (506, 89),
            (779, 89),
            (999, 89),
        ],
    );
}

#[test]
fn test_partition_row_distribution_preset_04_pos_multiple_groups_without_implicit_one() {
    // total_partitions=664, total_rows=10000,
    //   partitions/rows -> 332(~50%):20, 331(~49.84%):10, 1(~0.15%):50
    init_and_use_partition_row_distribution_preset(
        10000,
        vec![(10, "49.9:1,49.9:2, 0.2:5".to_string())],
        vec![
            PartitionGroup {
                n_rows_per_group: 6640,
                n_partitions: 332,
                n_rows_per_partition: 20,
            },
            PartitionGroup {
                n_rows_per_group: 3310,
                n_partitions: 331,
                n_rows_per_partition: 10,
            },
            PartitionGroup {
                n_rows_per_group: 50,
                n_partitions: 1,
                n_rows_per_partition: 50,
            },
        ],
        vec![
            // 1) Partitions 0-331, 20 rows each. 60 cycles of 48+24 then 80 cycles of 47:24
            (0, 0),
            (47, 47),
            (72, 48),
            (119, 95),
            (144, 96),
            (191, 143),
            (216, 144),
            (263, 191),
            // 2) Partitions 332-662, 10 rows each. 10 cycles of 67+1 then 40 cycles of 66+1
            (48, 332),
            (71, 355),
            (120, 356),
            (143, 379),
            (192, 380),
            (210, 398),
            (212, 399),
            (215, 402),
            // 3) Partition 663. 50 rows.
            (211, 663),
            (9999, 663),
            // Repetition
            (10000, 0),
            (19999, 663),
        ],
    );
}

#[test]
fn test_partition_row_distribution_preset_05_pos_multiple_presets() {
    let name_foo: String = "foo".to_string();
    let name_bar: String = "bar".to_string();
    let mut registry = PresetRegistry::new();

    assert!(
        registry.is_empty(),
        "The preset registry should be empty"
    );
    let foo_value = registry.get(&name_foo);
    assert!(foo_value.is_none());

    init_partition_row_distribution_preset(&mut registry, &name_foo, 1000, 10, "100:1")
        .unwrap_or_else(|_| panic!("The '{name_foo}' preset must have been created successfully"));
    assert!(
        !registry.is_empty(),
        "The preset registry should not be empty"
    );
    registry
        .get(&name_foo)
        .unwrap_or_else(|| panic!("Preset with name '{name_foo}' was not found"));

    let absent_bar = registry.get(&name_bar);
    assert!(
        absent_bar.is_none(),
        "The '{}' preset was expected to be absent",
        name_bar
    );

    init_partition_row_distribution_preset(&mut registry, &name_bar, 1000, 10, "90:1,10:2")
        .unwrap_or_else(|_| panic!("The '{name_bar}' preset must have been created successfully"));
    registry
        .get(&name_bar)
        .unwrap_or_else(|| panic!("Preset with name '{name_bar}' was not found"));
}

#[test]
fn test_partition_row_distribution_preset_06_neg_empty_preset_name() {
    false_input_for_partition_row_distribution_preset(
        "".to_string(),
        1000,
        10,
        "100:1".to_string(),
    )
}

#[test]
fn test_partition_row_distribution_preset_07_neg_zero_rows() {
    false_input_for_partition_row_distribution_preset("foo".to_string(), 0, 10, "100:1".to_string())
}

#[test]
fn test_partition_row_distribution_preset_08_neg_zero_base() {
    false_input_for_partition_row_distribution_preset(
        "foo".to_string(),
        1000,
        0,
        "100:1".to_string(),
    )
}

#[test]
fn test_partition_row_distribution_preset_09_neg_percentage_is_less_than_100() {
    false_input_for_partition_row_distribution_preset(
        "foo".to_string(),
        1000,
        10,
        "90:1,9.989:2".to_string(),
    )
}

#[test]
fn test_partition_row_distribution_preset_10_neg_percentage_is_more_than_100() {
    false_input_for_partition_row_distribution_preset(
        "foo".to_string(),
        1000,
        10,
        "90:1,10.011:2".to_string(),
    )
}

#[test]
fn test_partition_row_distribution_preset_11_neg_duplicated_percentages() {
    false_input_for_partition_row_distribution_preset(
        "foo".to_string(),
        1000,
        10,
        "50:1 , 50:1".to_string(),
    )
}

#[test]
fn test_partition_row_distribution_preset_12_neg_wrong_percentages() {
    false_input_for_partition_row_distribution_preset(
        "foo".to_string(),
        1000,
10,
        "90:1,ten:1".to_string(),
    )
}

#[test]
fn preset_defaults_to_single_full_group_on_empty_spec() {
    let mut registry = PresetRegistry::new();
    init_partition_row_distribution_preset(&mut registry, "dflt", 1000, 25, "")
        .expect("empty group string must fall back to 100:1");
    let preset = registry.get("dflt").expect("preset must exist");
    assert_eq!(preset.total_rows, 1000);
    assert_eq!(
        preset.partition_groups,
        vec![PartitionGroup {
            n_rows_per_group: 1000,
            n_partitions: 40,
            n_rows_per_partition: 25,
        }]
    );
}

#[test]
fn preset_total_rows_always_matches_requested_row_count() {
    // uneven splits force reconciliation in both the grow and re-add steps
    for (rc, base, spec) in [
        (1000u64, 13u64, "100:1"),
        (1000, 6, "50:1,30:2,20:4"),
        (10000, 10, "49.9:1,49.9:2, 0.2:5"),
        (997, 10, "33.4:1,33.3:2,33.3:3"),
        (1, 1000, "100:1"),
    ] {
        let mut registry = PresetRegistry::new();
        init_partition_row_distribution_preset(&mut registry, "p", rc, base, spec)
            .expect("preset creation failed");
        let preset = registry.get("p").expect("preset must exist");
        assert_eq!(preset.total_rows, rc, "spec {spec}");
        let total: u64 = preset
            .partition_groups
            .iter()
            .map(|g| g.n_rows_per_group)
            .sum();
        assert_eq!(total, rc, "spec {spec}");
        for g in &preset.partition_groups {
            assert_eq!(g.n_rows_per_group, g.n_partitions * g.n_rows_per_partition);
            assert!(g.n_partitions >= 1 && g.n_rows_per_partition >= 1);
        }
    }
}

#[test]
fn partition_info_is_in_range_and_periodic() {
    let mut registry = PresetRegistry::new();
    init_partition_row_distribution_preset(&mut registry, "p", 1000, 13, "100:1")
        .expect("preset creation failed");
    let preset = registry.get("p").expect("preset must exist");
    let total_partitions: u64 = preset
        .partition_groups
        .iter()
        .map(|g| g.n_partitions)
        .sum();
    for idx in 0..1000u64 {
        let (p_idx, rows) = get_partition_info(&registry, "p", idx).expect("resolution failed");
        assert!(p_idx < total_partitions, "idx {idx}");
        assert!(rows == 13 || rows == 12, "idx {idx}");
        // periodicity over two full periods
        let (p1, r1) = get_partition_info(&registry, "p", idx + 1000).unwrap();
        let (p2, r2) = get_partition_info(&registry, "p", idx + 2000).unwrap();
        assert_eq!((p_idx, rows), (p1, r1));
        assert_eq!((p_idx, rows), (p2, r2));
    }
}

#[test]
fn missing_preset_lookup_reports_not_found() {
    let registry = PresetRegistry::new();
    let err = get_partition_info(&registry, "absent", 0).unwrap_err();
    match err.0 {
        AlternatorErrorKind::PartitionRowPresetNotFound(name) => assert_eq!(name, "absent"),
        other => panic!("unexpected error kind: {other:?}"),
    }
}

#[test]
fn get_partition_idx_matches_get_partition_info() {
    let mut registry = PresetRegistry::new();
    init_partition_row_distribution_preset(&mut registry, "p", 1000, 25, "100:1")
        .expect("preset creation failed");
    for idx in [0u64, 1, 39, 40, 999, 1000, 2999] {
        let (p_idx, _) =
            get_partition_info(&registry, "p", idx).expect("resolution failed");
        let only_idx =
            latte::registry::get_partition_idx(&registry, "p", idx).expect("resolution failed");
        assert_eq!(p_idx, only_idx);
    }
}

#[test]
fn preset_rejects_malformed_pair_shapes() {
    // a pair without a colon, a pair with two colons, a negative sign, a
    // lone point, an empty exponent, and a fraction finer than the eighth
    // decimal place are all malformed
    for group_spec in [
        "100",
        "50:1:2,50:1",
        "-50:1,150:1",
        ".:1",
        "1e:1,99:1",
        "99.999999999:1,0.000000001:1",
    ] {
        false_input_for_partition_row_distribution_preset(
            "foo".to_string(),
            1000,
            10,
            group_spec.to_string(),
        );
    }
}

#[test]
fn preset_accepts_signed_exponent_and_long_fraction_forms() {
    for group_spec in [
        "+50:1,50:2",
        "5e1:1,2.5e1:2,25:4",
        "99.9999999:1,0.0000001:1",
        "500e-1:1,0.5e2:2",
    ] {
        let mut registry = PresetRegistry::new();
        init_partition_row_distribution_preset(&mut registry, "p", 1000, 12, group_spec)
            .unwrap_or_else(|e| panic!("{group_spec} must be accepted, got {e:?}"));
        let preset = registry.get("p").expect("preset must exist");
        assert_eq!(preset.total_rows, 1000, "spec {group_spec}");
    }
}

#[test]
fn percent_sum_error_names_the_actual_sum() {
    for (group_spec, reported) in [
        ("90:1,9.989:2", "99.98900000"),
        ("90:1,10.011:2", "100.01100000"),
        ("90:1,9:2", "99"),
    ] {
        let mut registry = PresetRegistry::new();
        let err = init_partition_row_distribution_preset(&mut registry, "p", 1000, 10, group_spec)
            .unwrap_err();
        match err.0 {
            AlternatorErrorKind::Error(msg) => {
                assert_eq!(
                    msg,
                    format!(
                        "init_partition_row_distribution_preset: summary of partition \
                        percentage must be '100'. Got '{reported}' instead"
                    ),
                    "spec {group_spec}"
                );
            }
            other => panic!("unexpected error kind: {other:?}"),
        }
    }
}

#[test]
fn preset_rejects_a_zero_partition_size() {
    // base 1 with multiplier 0.5 floors to zero rows per partition
    false_input_for_partition_row_distribution_preset(
        "foo".to_string(),
        1000,
        1,
        "100:0.5".to_string(),
    );
}

#[test]
fn preset_accepts_fractional_numbers_on_both_sides() {
    let mut registry = PresetRegistry::new();
    init_partition_row_distribution_preset(&mut registry, "frac", 1000, 10, "99.99:1,0.01:2")
        .expect("fractional percents inside the tolerance must be accepted");
    let preset = registry.get("frac").expect("preset must exist");
    let total: u64 = preset
        .partition_groups
        .iter()
        .map(|g| g.n_rows_per_group)
        .sum();
    assert_eq!(total, 1000);
}

#[test]
fn partition_info_rows_match_the_resolved_group() {
    let mut registry = PresetRegistry::new();
    init_partition_row_distribution_preset(&mut registry, "p", 1000, 6, "50:1,30:2,20:4")
        .expect("preset creation failed");
    let preset = registry.get("p").expect("preset must exist");
    for idx in 0..1000u64 {
        let (p_idx, rows) = get_partition_info(&registry, "p", idx).expect("resolution failed");
        // the returned row count is the one of the group whose partition
        // span holds the returned partition index
        let mut offset = 0u64;
        let mut matched = false;
        for g in &preset.partition_groups {
            if p_idx < offset + g.n_partitions {
                assert_eq!(rows, g.n_rows_per_partition, "idx {idx}");
                matched = true;
                break;
            }
            offset += g.n_partitions;
        }
        assert!(matched, "partition index out of every group's span");
    }
}
