//! The shard manager's session bookkeeping: bring-up plans, reshard
//! updates, and the handshake limiter.

use stratum::config::Config;
use stratum::manager::{restart_delay_secs, ShardManager, StartupLimiter, Supervisors};

fn worker(start: u32, end: u32, total: u32, name: &str) -> ShardManager {
    let c = Config::from_parts(
        None,
        Some("tok".to_string()),
        Some(start.to_string()),
        Some(end.to_string()),
        Some(total.to_string()),
        Some(name.to_string()),
        Some("1".to_string()),
    )
    .unwrap();
    ShardManager::new(c)
}

fn bring_up(m: &mut ShardManager) -> Vec<u32> {
    let plan = m.start_plan();
    for id in plan.shard_ids.iter() {
        m.start_shard(*id);
    }
    plan.shard_ids
}

#[test]
fn start_plan_lists_the_assigned_range() {
    let m = worker(4, 5, 6, "stratum-group-2");
    let plan = m.start_plan();
    assert_eq!(plan.shard_ids, vec![4, 5]);
    assert_eq!(plan.stagger_delay_secs, 20);
    assert_eq!(plan.pacing_secs, 2);
}

#[test]
fn start_plan_stays_inside_the_total() {
    let m = worker(2, 3, 3, "w");
    assert_eq!(m.start_plan().shard_ids, vec![2]);
    let empty = worker(2, 3, 0, "w");
    assert!(empty.start_plan().shard_ids.is_empty());
}

#[test]
fn start_shard_is_idempotent() {
    let mut m = worker(0, 1, 4, "w");
    assert!(m.start_shard(0));
    assert!(!m.start_shard(0));
    assert!(m.start_shard(1));
}

#[test]
fn stop_shard_reports_whether_a_session_lived() {
    let mut m = worker(0, 1, 4, "w");
    m.start_shard(0);
    assert!(m.stop_shard(0));
    assert!(!m.stop_shard(0));
}

#[test]
fn unchanged_range_makes_update_a_no_op() {
    // a group-0 worker of a 4-shard fleet sees the fleet stay at 4
    let mut m = worker(0, 1, 4, "stratum-group-0");
    bring_up(&mut m);
    let plan = m.update_shards(4);
    assert!(plan.to_stop.is_empty());
    assert!(plan.to_start.is_empty());
}

#[test]
fn growth_beyond_the_range_changes_nothing_for_old_workers() {
    // the fleet grows from 4 to 6; group-0 keeps shards 0 and 1
    let mut m = worker(0, 1, 4, "stratum-group-0");
    bring_up(&mut m);
    let plan = m.update_shards(6);
    assert!(plan.to_stop.is_empty());
    assert!(plan.to_start.is_empty());
}

#[test]
fn shrink_stops_the_sessions_past_the_total() {
    // the fleet shrinks to 1; a worker holding 0 and 1 drops shard 1
    let mut m = worker(0, 1, 4, "stratum-group-0");
    bring_up(&mut m);
    let plan = m.update_shards(1);
    assert_eq!(plan.to_stop, vec![1]);
    assert!(plan.to_start.is_empty());
}

#[test]
fn growth_into_the_range_starts_the_missing_sessions() {
    // a worker assigned [2, 3] of a fleet of 3 runs only shard 2; the
    // fleet growing to 4 brings shard 3 into reach
    let mut m = worker(2, 3, 3, "stratum-group-1");
    bring_up(&mut m);
    let plan = m.update_shards(4);
    assert!(plan.to_stop.is_empty());
    assert_eq!(plan.to_start, vec![3]);
}

#[test]
fn update_to_zero_stops_everything() {
    let mut m = worker(0, 1, 4, "w");
    bring_up(&mut m);
    let plan = m.update_shards(0);
    assert_eq!(plan.to_stop, vec![0, 1]);
    assert!(plan.to_start.is_empty());
}

#[test]
fn shutdown_returns_every_session() {
    let mut m = worker(0, 2, 4, "w");
    bring_up(&mut m);
    let stopped = m.shutdown();
    assert_eq!(stopped, vec![0, 1, 2]);
    assert!(m.shutdown().is_empty());
}

#[test]
fn failed_runs_cool_off_five_seconds() {
    assert_eq!(restart_delay_secs(true), 5);
    assert_eq!(restart_delay_secs(false), 0);
}

#[test]
fn limiter_caps_at_its_budget() {
    let mut lim = StartupLimiter::new(1);
    assert!(lim.try_acquire());
    assert!(!lim.try_acquire());
    lim.release();
    assert!(lim.try_acquire());
}

#[test]
fn supervisors_respect_the_handshake_cap() {
    let mut fleet = Supervisors::new(2, 1);
    fleet.begin_request(0);
    fleet.begin_request(1);
    assert!(fleet.try_enter_handshake(0));
    // the second supervisor must wait while the first holds the permit
    assert!(!fleet.try_enter_handshake(1));
    fleet.begin_run(0);
    assert!(!fleet.try_enter_handshake(1));
    fleet.finish_run(0);
    assert!(fleet.try_enter_handshake(1));
}

#[test]
fn cancelling_a_holder_frees_its_permit() {
    let mut fleet = Supervisors::new(2, 1);
    fleet.begin_request(0);
    fleet.begin_request(1);
    assert!(fleet.try_enter_handshake(0));
    fleet.cancel(0);
    assert!(fleet.try_enter_handshake(1));
}
