//! Assembling a worker configuration from raw values, and the stagger a
//! worker reads from its own name.

use stratum::config::{Config, ConfigError};
use stratum::manager::{startup_group_index, ShardManager};

fn s(v: &str) -> Option<String> {
    Some(v.to_string())
}

fn full_parts() -> Config {
    Config::from_parts(
        s("nats://bus:4222"),
        s("token-value"),
        s("0"),
        s("1"),
        s("4"),
        s("stratum-group-0"),
        s("2"),
    )
    .unwrap()
}

#[test]
fn all_values_carry_over() {
    let c = full_parts();
    assert_eq!(c.nats_url, "nats://bus:4222");
    assert_eq!(c.shard_id_start, 0);
    assert_eq!(c.shard_id_end, 1);
    assert_eq!(c.total_shards, 4);
    assert_eq!(c.worker_id(), "stratum-group-0");
    assert_eq!(c.max_concurrency, 2);
}

#[test]
fn defaults_fill_the_optional_values() {
    let c = Config::from_parts(None, s("tok"), s("0"), s("1"), s("4"), None, None).unwrap();
    assert_eq!(c.nats_url, "nats://localhost:4222");
    assert_eq!(c.worker_id(), "unknown");
    assert_eq!(c.max_concurrency, 1);
}

#[test]
fn each_missing_value_names_its_error() {
    assert_eq!(
        Config::from_parts(None, None, s("0"), s("1"), s("4"), None, None),
        Err(ConfigError::MissingDiscordToken)
    );
    assert_eq!(
        Config::from_parts(None, s("tok"), None, s("1"), s("4"), None, None),
        Err(ConfigError::MissingShardIdStart)
    );
    assert_eq!(
        Config::from_parts(None, s("tok"), s("0"), None, s("4"), None, None),
        Err(ConfigError::MissingShardIdEnd)
    );
    assert_eq!(
        Config::from_parts(None, s("tok"), s("0"), s("1"), None, None, None),
        Err(ConfigError::MissingTotalShards)
    );
}

#[test]
fn each_malformed_number_names_its_error() {
    assert_eq!(
        Config::from_parts(None, s("tok"), s("abc"), s("1"), s("4"), None, None),
        Err(ConfigError::InvalidShardIdStart)
    );
    assert_eq!(
        Config::from_parts(None, s("tok"), s("0"), s(""), s("4"), None, None),
        Err(ConfigError::InvalidShardIdEnd)
    );
    assert_eq!(
        Config::from_parts(None, s("tok"), s("0"), s("1"), s("99999999999"), None, None),
        Err(ConfigError::InvalidTotalShards)
    );
    assert_eq!(
        Config::from_parts(None, s("tok"), s("0"), s("1"), s("4"), None, s("-1")),
        Err(ConfigError::InvalidMaxConcurrency)
    );
}

#[test]
fn leading_zeros_parse() {
    let c = Config::from_parts(None, s("tok"), s("007"), s("009"), s("016"), None, None).unwrap();
    assert_eq!(c.shard_id_start, 7);
    assert_eq!(c.shard_id_end, 9);
    assert_eq!(c.total_shards, 16);
}

#[test]
fn group_index_reads_the_name_suffix() {
    assert_eq!(startup_group_index("stratum-group-0"), 0);
    assert_eq!(startup_group_index("stratum-group-7"), 7);
    assert_eq!(startup_group_index("stratum-group-12"), 12);
}

#[test]
fn names_without_the_group_shape_get_no_stagger() {
    assert_eq!(startup_group_index("unknown"), 0);
    assert_eq!(startup_group_index("stratum-group-"), 0);
    assert_eq!(startup_group_index("stratum-group-7x"), 0);
    assert_eq!(startup_group_index("other-group-7"), 0);
    assert_eq!(startup_group_index(""), 0);
}

#[test]
fn stagger_is_ten_seconds_per_group() {
    let c = Config::from_parts(None, s("tok"), s("4"), s("5"), s("6"), s("stratum-group-2"), None)
        .unwrap();
    let m = ShardManager::new(c);
    assert_eq!(m.calculate_startup_delay(), 20);
    let plain = Config::from_parts(None, s("tok"), s("0"), s("1"), s("4"), s("unknown"), None)
        .unwrap();
    let m2 = ShardManager::new(plain);
    assert_eq!(m2.calculate_startup_delay(), 0);
}
