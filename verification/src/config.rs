//! Worker configuration: the values a replica needs to know which shards
//! it owns, how to reach the bus, and how fast it may open sessions.

use vstd::prelude::*;

use crate::text::{all_digits, dec_val, parse_u32};

verus! {

/// Configuration of one worker replica.
#[derive(Clone, Debug, PartialEq, Eq)]
pub struct Config {
    /// Bus server URL.
    pub nats_url: String,
    /// Vendor API token.
    pub discord_token: String,
    /// First shard id assigned to this worker, inclusive.
    pub shard_id_start: u32,
    /// Last shard id assigned to this worker, inclusive.
    pub shard_id_end: u32,
    /// Total number of shards across the whole fleet.
    pub total_shards: u32,
    /// This worker's own name.
    pub worker_id: String,
    /// How many shard handshakes may run at once.
    pub max_concurrency: u32,
}

/// What went wrong while assembling a configuration.
#[derive(Clone, Copy, Debug, PartialEq, Eq, Structural)]
pub enum ConfigError {
    MissingDiscordToken,
    MissingShardIdStart,
    MissingShardIdEnd,
    MissingTotalShards,
    InvalidShardIdStart,
    InvalidShardIdEnd,
    InvalidTotalShards,
    InvalidMaxConcurrency,
}

/// True when `s` is a decimal numeral whose value fits in a `u32`.
pub open spec fn u32_numeral(s: Seq<char>) -> bool {
    s.len() > 0 && all_digits(s) && dec_val(s) <= u32::MAX
}

impl Config {
    /// Assembles a configuration from raw values, applying the
    /// defaults: bus URL falls back to the local server, the worker id to
    /// `unknown`, and the handshake concurrency to one. The token, the
    /// shard range and the total are required, and every numeric value
    /// must be a decimal numeral that fits in a `u32`; the first value
    /// missing or malformed, in that order, names the error.
    pub fn from_parts(
        nats_url: Option<String>,
        discord_token: Option<String>,
        shard_id_start: Option<String>,
        shard_id_end: Option<String>,
        total_shards: Option<String>,
        worker_id: Option<String>,
        max_concurrency: Option<String>,
    ) -> (r: Result<Config, ConfigError>)
        ensures
            discord_token is None ==> r == Result::<Config, ConfigError>::Err(
                ConfigError::MissingDiscordToken,
            ),
            discord_token is Some && shard_id_start is None ==> r == Result::<
                Config,
                ConfigError,
            >::Err(ConfigError::MissingShardIdStart),
            discord_token is Some && (shard_id_start matches Some(v) && !u32_numeral(v@))
                ==> r == Result::<Config, ConfigError>::Err(ConfigError::InvalidShardIdStart),
            discord_token is Some && (shard_id_start matches Some(v) && u32_numeral(v@))
                && shard_id_end is None ==> r == Result::<Config, ConfigError>::Err(
                ConfigError::MissingShardIdEnd,
            ),
            discord_token is Some && (shard_id_start matches Some(v) && u32_numeral(v@)) && (
            shard_id_end matches Some(w) && !u32_numeral(w@)) ==> r == Result::<
                Config,
                ConfigError,
            >::Err(ConfigError::InvalidShardIdEnd),
            discord_token is Some && (shard_id_start matches Some(v) && u32_numeral(v@)) && (
            shard_id_end matches Some(w) && u32_numeral(w@)) && total_shards is None ==> r
                == Result::<Config, ConfigError>::Err(ConfigError::MissingTotalShards),
            discord_token is Some && (shard_id_start matches Some(v) && u32_numeral(v@)) && (
            shard_id_end matches Some(w) && u32_numeral(w@)) && (total_shards matches Some(u)
                && !u32_numeral(u@)) ==> r == Result::<Config, ConfigError>::Err(
                ConfigError::InvalidTotalShards,
            ),
            discord_token is Some && (shard_id_start matches Some(v) && u32_numeral(v@)) && (
            shard_id_end matches Some(w) && u32_numeral(w@)) && (total_shards matches Some(u)
                && u32_numeral(u@)) && (max_concurrency matches Some(x) && !u32_numeral(x@))
                ==> r == Result::<Config, ConfigError>::Err(ConfigError::InvalidMaxConcurrency),
            // success is owed whenever every required value is present and numeric
            discord_token is Some && (shard_id_start matches Some(v) && u32_numeral(v@)) && (
            shard_id_end matches Some(w) && u32_numeral(w@)) && (total_shards matches Some(u)
                && u32_numeral(u@)) && (match max_concurrency {
                Some(x) => u32_numeral(x@),
                None => true,
            }) ==> r is Ok,
            r matches Ok(c) ==> {
                &&& discord_token matches Some(t) && c.discord_token == t
                &&& shard_id_start matches Some(v) && u32_numeral(v@) && c.shard_id_start as nat
                    == dec_val(v@)
                &&& shard_id_end matches Some(w) && u32_numeral(w@) && c.shard_id_end as nat
                    == dec_val(w@)
                &&& total_shards matches Some(u) && u32_numeral(u@) && c.total_shards as nat
                    == dec_val(u@)
                &&& match nats_url {
                    Some(url) => c.nats_url == url,
                    None => c.nats_url@ == "nats://localhost:4222"@,
                }
                &&& match worker_id {
                    Some(w) => c.worker_id == w,
                    None => c.worker_id@ == "unknown"@,
                }
                &&& match max_concurrency {
                    Some(x) => u32_numeral(x@) && c.max_concurrency as nat == dec_val(x@),
                    None => c.max_concurrency == 1,
                }
            },
    {
        let discord_token = match discord_token {
            Some(t) => t,
            None => {
                return Err(ConfigError::MissingDiscordToken);
            },
        };
        let start_text = match shard_id_start {
            Some(v) => v,
            None => {
                return Err(ConfigError::MissingShardIdStart);
            },
        };
        let shard_id_start = match parse_u32(start_text.as_str()) {
            Some(v) => v,
            None => {
                return Err(ConfigError::InvalidShardIdStart);
            },
        };
        let end_text = match shard_id_end {
            Some(v) => v,
            None => {
                return Err(ConfigError::MissingShardIdEnd);
            },
        };
        let shard_id_end = match parse_u32(end_text.as_str()) {
            Some(v) => v,
            None => {
                return Err(ConfigError::InvalidShardIdEnd);
            },
        };
        let total_text = match total_shards {
            Some(v) => v,
            None => {
                return Err(ConfigError::MissingTotalShards);
            },
        };
        let total_shards = match parse_u32(total_text.as_str()) {
            Some(v) => v,
            None => {
                return Err(ConfigError::InvalidTotalShards);
            },
        };
        let max_concurrency = match max_concurrency {
            Some(x) => {
                match parse_u32(x.as_str()) {
                    Some(v) => v,
                    None => {
                        return Err(ConfigError::InvalidMaxConcurrency);
                    },
                }
            },
            None => 1,
        };
        let nats_url = match nats_url {
            Some(url) => url,
            None => String::from_str("nats://localhost:4222"),
        };
        let worker_id = match worker_id {
            Some(w) => w,
            None => String::from_str("unknown"),
        };
        Ok(
            Config {
                nats_url,
                discord_token,
                shard_id_start,
                shard_id_end,
                total_shards,
                worker_id,
                max_concurrency,
            },
        )
    }

    /// This worker's own name.
    pub fn worker_id(&self) -> (r: &str)
        ensures
            r@ == self.worker_id@,
    {
        self.worker_id.as_str()
    }
}

} // verus!
