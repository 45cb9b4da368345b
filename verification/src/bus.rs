//! The bus-facing constants of both sides: the coordination subjects and
//! the persistent stream the workers publish into.

use vstd::prelude::*;

verus! {

/// Messages kept by the persistent event stream before old ones fall
/// off.
pub const EVENT_STREAM_MAX_MESSAGES: i64 = 10000;

/// The subject the operator broadcasts reshard signals on.
pub fn reshard_topic() -> (r: String)
    ensures
        r@ == "discord.operator.reshard"@,
{
    String::from_str("discord.operator.reshard")
}

/// The subject the operator broadcasts startup coordination on.
pub fn startup_coordination_topic() -> (r: String)
    ensures
        r@ == "discord.operator.startup"@,
{
    String::from_str("discord.operator.startup")
}

/// The subject workers ask startup permission on.
pub fn startup_request_topic() -> (r: String)
    ensures
        r@ == "discord.startup.request"@,
{
    String::from_str("discord.startup.request")
}

/// The subject workers report finished startups on.
pub fn startup_complete_topic() -> (r: String)
    ensures
        r@ == "discord.startup.complete"@,
{
    String::from_str("discord.startup.complete")
}

/// The subject a worker announces itself on when it boots.
pub fn gateway_startup_topic() -> (r: String)
    ensures
        r@ == "discord.gateway.startup"@,
{
    String::from_str("discord.gateway.startup")
}

/// The body of the worker's boot announcement.
pub fn gateway_startup_message() -> (r: String)
    ensures
        r@ == "Bot is starting up!"@,
{
    String::from_str("Bot is starting up!")
}

/// The persistent stream the shard runners publish into.
pub struct EventStreamSettings {
    /// The stream's name.
    pub name: String,
    /// The subjects it captures.
    pub subjects: Vec<String>,
    /// How many messages it retains.
    pub max_messages: i64,
}

/// The settings the worker creates or adopts its event stream with: one
/// stream over every shard subject, bounded in message count.
pub fn event_stream_settings() -> (r: EventStreamSettings)
    ensures
        r.name@ == "discord-events"@,
        r.subjects.deep_view() =~= seq!["discord.shards.>"@],
        r.max_messages == EVENT_STREAM_MAX_MESSAGES,
{
    let mut subjects: Vec<String> = Vec::new();
    subjects.push(String::from_str("discord.shards.>"));
    EventStreamSettings {
        name: String::from_str("discord-events"),
        subjects,
        max_messages: 10000,
    }
}

} // verus!
