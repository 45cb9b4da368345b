//! The coordination message formats: round trips, exact wire texts, and
//! agreement with a general-purpose JSON writer on the same values.

use stratum::codec::{
    decode_reshard, decode_startup_coordination, encode_reshard, encode_startup_complete,
    encode_startup_coordination, encode_startup_request,
};
use stratum::partition::ShardGroup;
use stratum::timefmt::format_rfc3339;

fn sample_groups() -> Vec<ShardGroup> {
    vec![
        ShardGroup {
            deployment_name: "stratum-group-0".to_string(),
            shard_start: 0,
            shard_end: 2,
            replicas: 1,
        },
        ShardGroup {
            deployment_name: "stratum-group-1".to_string(),
            shard_start: 3,
            shard_end: 5,
            replicas: 1,
        },
    ]
}

#[test]
fn reshard_exact_text() {
    let s = encode_reshard(6, "2024-01-01T00:00:00+00:00").unwrap();
    assert_eq!(
        s,
        "{\"event\":\"reshard\",\"new_shard_count\":6,\"timestamp\":\"2024-01-01T00:00:00+00:00\"}"
    );
}

#[test]
fn reshard_matches_general_json_writer() {
    // build the same object through serde_json, without macros
    let mut obj = serde_json::Map::new();
    obj.insert("event".to_string(), serde_json::Value::from("reshard"));
    obj.insert("new_shard_count".to_string(), serde_json::Value::from(6u32));
    obj.insert(
        "timestamp".to_string(),
        serde_json::Value::from("2024-01-01T00:00:00+00:00"),
    );
    let general = serde_json::Value::Object(obj).to_string();
    let ours = encode_reshard(6, "2024-01-01T00:00:00+00:00").unwrap();
    assert_eq!(ours, general);
}

#[test]
fn reshard_round_trip() {
    let wire = encode_reshard(4, "2024-06-30T12:34:56+00:00").unwrap();
    let msg = decode_reshard(&wire).unwrap();
    assert_eq!(msg.new_shard_count, 4);
    assert_eq!(msg.timestamp, "2024-06-30T12:34:56+00:00");
}

#[test]
fn reshard_zero_round_trip() {
    let wire = encode_reshard(0, "t").unwrap();
    let msg = decode_reshard(&wire).unwrap();
    assert_eq!(msg.new_shard_count, 0);
}

#[test]
fn reshard_decode_rejects_other_texts() {
    assert!(decode_reshard("").is_none());
    assert!(decode_reshard("{}").is_none());
    assert!(decode_reshard("{\"event\":\"restart\",\"new_shard_count\":6,\"timestamp\":\"t\"}").is_none());
    // leading zero is not the canonical numeral
    assert!(decode_reshard("{\"event\":\"reshard\",\"new_shard_count\":007,\"timestamp\":\"t\"}").is_none());
    // a count past u32 range is refused
    assert!(decode_reshard(
        "{\"event\":\"reshard\",\"new_shard_count\":4294967296,\"timestamp\":\"t\"}"
    )
    .is_none());
    // trailing bytes are refused
    let mut wire = encode_reshard(4, "t").unwrap();
    wire.push(' ');
    assert!(decode_reshard(&wire).is_none());
}

#[test]
fn reshard_encode_refuses_unembeddable_timestamp() {
    assert!(encode_reshard(4, "a\"b").is_none());
    assert!(encode_reshard(4, "a\\b").is_none());
}

#[test]
fn startup_coordination_round_trip() {
    let groups = sample_groups();
    let wire = encode_startup_coordination("main", 1, 6, &groups, "2024-01-01T00:00:00+00:00")
        .unwrap();
    let msg = decode_startup_coordination(&wire).unwrap();
    assert_eq!(msg.cluster, "main");
    assert_eq!(msg.max_concurrency, 1);
    assert_eq!(msg.total_shards, 6);
    assert_eq!(msg.timestamp, "2024-01-01T00:00:00+00:00");
    assert_eq!(msg.shard_groups.len(), 2);
    assert_eq!(msg.shard_groups[0], groups[0]);
    assert_eq!(msg.shard_groups[1], groups[1]);
}

#[test]
fn startup_coordination_empty_groups_round_trip() {
    let wire = encode_startup_coordination("main", 1, 0, &Vec::new(), "t").unwrap();
    let msg = decode_startup_coordination(&wire).unwrap();
    assert_eq!(msg.total_shards, 0);
    assert!(msg.shard_groups.is_empty());
}

#[test]
fn startup_coordination_matches_general_json_writer() {
    let groups = sample_groups();
    let ours = encode_startup_coordination("main", 1, 6, &groups, "t").unwrap();

    let mut g0 = serde_json::Map::new();
    g0.insert(
        "deployment_name".to_string(),
        serde_json::Value::from("stratum-group-0"),
    );
    g0.insert("replicas".to_string(), serde_json::Value::from(1));
    g0.insert("shard_end".to_string(), serde_json::Value::from(2));
    g0.insert("shard_start".to_string(), serde_json::Value::from(0));
    let mut g1 = serde_json::Map::new();
    g1.insert(
        "deployment_name".to_string(),
        serde_json::Value::from("stratum-group-1"),
    );
    g1.insert("replicas".to_string(), serde_json::Value::from(1));
    g1.insert("shard_end".to_string(), serde_json::Value::from(5));
    g1.insert("shard_start".to_string(), serde_json::Value::from(3));
    let mut obj = serde_json::Map::new();
    obj.insert("cluster".to_string(), serde_json::Value::from("main"));
    obj.insert(
        "event".to_string(),
        serde_json::Value::from("startup_coordination"),
    );
    obj.insert("max_concurrency".to_string(), serde_json::Value::from(1));
    obj.insert(
        "shard_groups".to_string(),
        serde_json::Value::Array(vec![
            serde_json::Value::Object(g0),
            serde_json::Value::Object(g1),
        ]),
    );
    obj.insert("timestamp".to_string(), serde_json::Value::from("t"));
    obj.insert("total_shards".to_string(), serde_json::Value::from(6));
    let general = serde_json::Value::Object(obj).to_string();
    assert_eq!(ours, general);
}

#[test]
fn startup_coordination_decode_rejects_other_texts() {
    assert!(decode_startup_coordination("").is_none());
    assert!(decode_startup_coordination("{\"cluster\":\"main\"}").is_none());
    let wire = encode_startup_coordination("main", 1, 6, &sample_groups(), "t").unwrap();
    // a non-canonical numeral is refused
    assert!(decode_startup_coordination(&wire.replace(
        "\"max_concurrency\":1",
        "\"max_concurrency\":01"
    ))
    .is_none());
    let mut trailing = wire.clone();
    trailing.push('x');
    assert!(decode_startup_coordination(&trailing).is_none());
}

#[test]
fn startup_notices_exact_text() {
    let req = encode_startup_request("stratum-group-0", 0, 1640995200).unwrap();
    assert_eq!(
        req,
        "{\"action\":\"request_startup\",\"shard_id\":0,\"timestamp\":1640995200,\"worker_id\":\"stratum-group-0\"}"
    );
    let done = encode_startup_complete("stratum-group-0", 0, 1640995200).unwrap();
    assert_eq!(
        done,
        "{\"action\":\"startup_complete\",\"shard_id\":0,\"timestamp\":1640995200,\"worker_id\":\"stratum-group-0\"}"
    );
}

#[test]
fn startup_notice_matches_general_json_writer() {
    let mut obj = serde_json::Map::new();
    obj.insert(
        "action".to_string(),
        serde_json::Value::from("request_startup"),
    );
    obj.insert("shard_id".to_string(), serde_json::Value::from(3u32));
    obj.insert(
        "timestamp".to_string(),
        serde_json::Value::from(1640995200u64),
    );
    obj.insert(
        "worker_id".to_string(),
        serde_json::Value::from("stratum-group-1"),
    );
    let general = serde_json::Value::Object(obj).to_string();
    let ours = encode_startup_request("stratum-group-1", 3, 1640995200).unwrap();
    assert_eq!(ours, general);
}

#[test]
fn rfc3339_rendering_matches_chrono() {
    let ours = format_rfc3339(0).unwrap();
    assert_eq!(ours, "1970-01-01T00:00:00+00:00");
    let later = format_rfc3339(1719750896).unwrap();
    let direct = chrono::DateTime::from_timestamp(1719750896, 0)
        .unwrap()
        .to_rfc3339();
    assert_eq!(later, direct);
}

#[test]
fn partitioner_output_survives_the_broadcast() {
    // the groups the reconciler computes travel losslessly to the workers
    let groups = stratum::partition::calculate_shard_groups(7, 3);
    let wire = encode_startup_coordination("main", 2, 7, &groups, "t").unwrap();
    let msg = decode_startup_coordination(&wire).unwrap();
    assert_eq!(msg.shard_groups, groups);
    assert_eq!(msg.max_concurrency, 2);
    assert_eq!(msg.total_shards, 7);
}
