//! The reconciler's decisions on concrete clusters: the rate-limit gate,
//! the replica plan, the requeue policy, the scheduler, and the worker
//! environment.

use stratum::partition::calculate_shard_groups;
use stratum::reconcile::{
    deployments_to_delete, error_policy, owned_replica_selector, plan_reconcile, reconcile_gate,
    should_reshard, token_from_secret, worker_env, worker_labels, ReconcileGate,
    ShardClusterSpec, ShardClusterStatus, TokenError,
};

fn spec(per: u32) -> ShardClusterSpec {
    ShardClusterSpec {
        discord_token_secret: "token-value".to_string(),
        nats_url: "nats://bus:4222".to_string(),
        image: "stratum:latest".to_string(),
        replicas_per_shard_group: 1,
        shards_per_replica: per,
        reshard_interval_hours: 2,
    }
}

fn status_with(groups: u32, per: u32, last: i64) -> ShardClusterStatus {
    ShardClusterStatus {
        current_shards: Some(groups * per),
        last_reshard: Some(last),
        shard_groups: calculate_shard_groups(groups * per, per),
        phase: "Active".to_string(),
    }
}

#[test]
fn a_recent_reshard_skips_the_vendor_call() {
    let now = 1_700_000_000;
    let st = status_with(2, 2, now - 300);
    assert_eq!(
        reconcile_gate(&Some(st), now),
        ReconcileGate::SkipRecent { requeue_secs: 600 }
    );
}

#[test]
fn a_stale_or_absent_status_goes_to_the_vendor() {
    let now = 1_700_000_000;
    let st = status_with(2, 2, now - 601);
    assert_eq!(reconcile_gate(&Some(st), now), ReconcileGate::FetchGatewayInfo);
    assert_eq!(reconcile_gate(&None, now), ReconcileGate::FetchGatewayInfo);
}

#[test]
fn a_clock_running_backwards_counts_as_recent() {
    let now = 1_700_000_000;
    let st = status_with(2, 2, now + 100);
    assert_eq!(
        reconcile_gate(&Some(st), now),
        ReconcileGate::SkipRecent { requeue_secs: 600 }
    );
}

#[test]
fn fresh_cluster_gets_its_first_groups() {
    let now = 1_700_000_000;
    let plan = plan_reconcile(&spec(2), &None, 4, now);
    assert!(plan.needs_deployment_update);
    assert_eq!(plan.desired_groups.len(), 2);
    assert_eq!(plan.new_status.current_shards, Some(4));
    assert_eq!(plan.new_status.last_reshard, Some(now));
    assert_eq!(plan.new_status.phase, "Active");
    assert_eq!(plan.new_status.shard_groups.len(), 2);
    assert_eq!(plan.requeue_secs, 1800);
}

#[test]
fn steady_state_touches_no_replica() {
    let now = 1_700_000_000;
    let st = status_with(2, 2, now - 7200);
    let plan = plan_reconcile(&spec(2), &Some(st), 4, now);
    assert!(!plan.needs_deployment_update);
    // the status still advances
    assert_eq!(plan.new_status.last_reshard, Some(now));
}

#[test]
fn growth_adds_a_group() {
    let now = 1_700_000_000;
    let st = status_with(2, 2, now - 7200);
    let plan = plan_reconcile(&spec(2), &Some(st), 6, now);
    assert!(plan.needs_deployment_update);
    assert_eq!(plan.desired_groups.len(), 3);
    assert_eq!(plan.desired_groups[2].deployment_name, "stratum-group-2");
    assert_eq!(plan.desired_groups[2].shard_start, 4);
    assert_eq!(plan.desired_groups[2].shard_end, 5);
}

#[test]
fn shrink_drops_the_spare_replica() {
    let now = 1_700_000_000;
    let st = status_with(2, 2, now - 7200);
    let plan = plan_reconcile(&spec(2), &Some(st), 2, now);
    assert!(plan.needs_deployment_update);
    assert_eq!(plan.desired_groups.len(), 1);
    let existing = vec!["stratum-group-0".to_string(), "stratum-group-1".to_string()];
    let doomed = deployments_to_delete(&existing, &plan.desired_groups);
    assert_eq!(doomed, vec!["stratum-group-1".to_string()]);
}

#[test]
fn zero_shards_empties_the_fleet() {
    let now = 1_700_000_000;
    let st = status_with(2, 2, now - 7200);
    let plan = plan_reconcile(&spec(2), &Some(st), 0, now);
    assert!(plan.desired_groups.is_empty());
    assert!(plan.new_status.shard_groups.is_empty());
    assert_eq!(plan.new_status.current_shards, Some(0));
    let existing = vec!["stratum-group-0".to_string(), "stratum-group-1".to_string()];
    let doomed = deployments_to_delete(&existing, &plan.desired_groups);
    assert_eq!(doomed, existing);
}

#[test]
fn rate_limits_requeue_five_minutes() {
    assert_eq!(error_policy("HTTP status 429 from gateway"), 300);
    assert_eq!(error_policy("you hit a rate limit, slow down"), 300);
}

#[test]
fn other_errors_requeue_two_minutes() {
    assert_eq!(error_policy("connection refused"), 120);
    assert_eq!(error_policy(""), 120);
}

#[test]
fn scheduler_fires_after_the_interval() {
    let now = 1_700_000_000;
    // three hours since the last reshard, at a two-hour interval
    assert!(should_reshard(Some(now - 3 * 3600), 2, now));
    // only one hour: wait
    assert!(!should_reshard(Some(now - 3600), 2, now));
    // no record at all: fire
    assert!(should_reshard(None, 2, now));
}

#[test]
fn worker_env_carries_the_whole_contract() {
    let groups = calculate_shard_groups(4, 2);
    let env = worker_env(&groups[1], "nats://bus:4222", 4, 1);
    let pairs: Vec<(String, String)> = env;
    assert_eq!(
        pairs,
        vec![
            ("NATS_URL".to_string(), "nats://bus:4222".to_string()),
            ("SHARD_ID_START".to_string(), "2".to_string()),
            ("SHARD_ID_END".to_string(), "3".to_string()),
            ("TOTAL_SHARDS".to_string(), "4".to_string()),
            ("WORKER_ID".to_string(), "stratum-group-1".to_string()),
            ("MAX_CONCURRENCY".to_string(), "1".to_string()),
        ]
    );
}

#[test]
fn labels_and_selector_agree() {
    let groups = calculate_shard_groups(4, 2);
    let labels = worker_labels(&groups[0], "main");
    assert_eq!(
        labels,
        vec![
            ("app".to_string(), "stratum".to_string()),
            ("shard-group".to_string(), "stratum-group-0".to_string()),
            ("managed-by".to_string(), "crust-operator".to_string()),
            ("cluster".to_string(), "main".to_string()),
        ]
    );
    assert_eq!(
        owned_replica_selector("main"),
        "managed-by=crust-operator,app=stratum,cluster=main"
    );
}

#[test]
fn token_extraction_tells_its_failures_apart() {
    assert_eq!(token_from_secret(None), Err(TokenError::NoData));
    assert_eq!(
        token_from_secret(Some(vec![("other".to_string(), b"x".to_vec())])),
        Err(TokenError::MissingKey)
    );
    assert_eq!(
        token_from_secret(Some(vec![("token".to_string(), vec![0xff, 0xfe])])),
        Err(TokenError::InvalidUtf8)
    );
    assert_eq!(
        token_from_secret(Some(vec![
            ("other".to_string(), b"x".to_vec()),
            ("token".to_string(), b"token-value".to_vec()),
        ])),
        Ok("token-value".to_string())
    );
}
