//! The partitioner's shape on concrete fleets.

use stratum::partition::{calculate_shard_groups, group_name_string};

#[test]
fn seven_shards_in_threes() {
    let groups = calculate_shard_groups(7, 3);
    assert_eq!(groups.len(), 3);
    assert_eq!(
        (groups[0].shard_start, groups[0].shard_end),
        (0, 2)
    );
    assert_eq!(
        (groups[1].shard_start, groups[1].shard_end),
        (3, 5)
    );
    assert_eq!(
        (groups[2].shard_start, groups[2].shard_end),
        (6, 6)
    );
    // the ranges re-compose to the whole fleet
    let total: u32 = groups.iter().map(|g| g.shard_end - g.shard_start + 1).sum();
    assert_eq!(total, 7);
}

#[test]
fn group_names_follow_the_index() {
    let groups = calculate_shard_groups(7, 3);
    assert_eq!(groups[0].deployment_name, "stratum-group-0");
    assert_eq!(groups[1].deployment_name, "stratum-group-1");
    assert_eq!(groups[2].deployment_name, "stratum-group-2");
    assert_eq!(group_name_string(17), "stratum-group-17");
}

#[test]
fn zero_total_yields_no_groups() {
    let groups = calculate_shard_groups(0, 3);
    assert!(groups.is_empty());
}

#[test]
fn one_group_covers_a_small_fleet() {
    let groups = calculate_shard_groups(4, 10);
    assert_eq!(groups.len(), 1);
    assert_eq!((groups[0].shard_start, groups[0].shard_end), (0, 3));
}

#[test]
fn exact_division_has_no_short_group() {
    let groups = calculate_shard_groups(4, 2);
    assert_eq!(groups.len(), 2);
    assert_eq!((groups[0].shard_start, groups[0].shard_end), (0, 1));
    assert_eq!((groups[1].shard_start, groups[1].shard_end), (2, 3));
}

#[test]
fn count_is_the_rounded_up_quotient() {
    let groups = calculate_shard_groups(10, 3);
    assert_eq!(groups.len(), 4);
    for g in &groups[..3] {
        assert_eq!(g.shard_end - g.shard_start + 1, 3);
    }
    assert_eq!(groups[3].shard_end - groups[3].shard_start + 1, 1);
    for g in &groups {
        assert_eq!(g.replicas, 1);
    }
}

#[test]
fn every_shard_lands_in_exactly_one_group() {
    let groups = calculate_shard_groups(11, 4);
    for id in 0..11u32 {
        let holders = groups
            .iter()
            .filter(|g| g.shard_start <= id && id <= g.shard_end)
            .count();
        assert_eq!(holders, 1, "shard {} held by {} groups", id, holders);
    }
}
