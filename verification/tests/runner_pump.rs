//! The per-shard runner's step decisions and the bus-facing constants.

use stratum::bus::{
    event_stream_settings, gateway_startup_message, gateway_startup_topic, reshard_topic,
    startup_complete_topic, startup_coordination_topic, startup_request_topic,
};
use stratum::runner::{
    runner_step, shard_events_topic, shard_starting_message, shard_startup_topic, GatewayItem,
    RetryBudget, RunnerStep,
};

#[test]
fn a_text_frame_becomes_one_publish() {
    let step = runner_step(3, GatewayItem::Text("{\"op\":0}".to_string()));
    match step {
        RunnerStep::Publish { topic, payload } => {
            assert_eq!(topic, "discord.shards.3.events");
            assert_eq!(payload, "{\"op\":0}");
        }
        _ => panic!("a text frame must be published"),
    }
}

#[test]
fn close_frames_are_skipped() {
    assert!(matches!(runner_step(3, GatewayItem::Close), RunnerStep::Continue));
}

#[test]
fn transient_errors_keep_the_pump_alive() {
    assert!(matches!(
        runner_step(3, GatewayItem::TransientError),
        RunnerStep::Continue
    ));
}

#[test]
fn reconnect_errors_end_the_pass_without_publishing() {
    assert!(matches!(
        runner_step(3, GatewayItem::ReconnectError),
        RunnerStep::Fail
    ));
}

#[test]
fn shard_topics_carry_the_shard_id() {
    assert_eq!(shard_startup_topic(0), "discord.shards.0.startup");
    assert_eq!(shard_events_topic(12), "discord.shards.12.events");
    assert_eq!(shard_starting_message(5), "Shard 5 is starting");
}

#[test]
fn retry_budget_spends_exactly_its_attempts() {
    let mut b = RetryBudget::new(5);
    let mut spent = 0;
    while b.next_attempt() {
        spent += 1;
    }
    assert_eq!(spent, 5);
    assert!(!b.next_attempt());
}

#[test]
fn coordination_topics_are_fixed() {
    assert_eq!(reshard_topic(), "discord.operator.reshard");
    assert_eq!(startup_coordination_topic(), "discord.operator.startup");
    assert_eq!(startup_request_topic(), "discord.startup.request");
    assert_eq!(startup_complete_topic(), "discord.startup.complete");
    assert_eq!(gateway_startup_topic(), "discord.gateway.startup");
    assert_eq!(gateway_startup_message(), "Bot is starting up!");
}

#[test]
fn event_stream_is_bounded_over_the_shard_subjects() {
    let s = event_stream_settings();
    assert_eq!(s.name, "discord-events");
    assert_eq!(s.subjects, vec!["discord.shards.>".to_string()]);
    assert_eq!(s.max_messages, 10000);
}
