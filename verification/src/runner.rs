//! The per-shard runner, modelled as a step function over inbound
//! gateway items: what gets published, what gets skipped, and which
//! errors end the session. The surrounding pump loop performs the
//! publishes and sleeps.

use vstd::prelude::*;

use crate::text::{dec_digits, push_dec_u32};

verus! {

/// How often a runner retries one bus publish before giving up.
pub const PUBLISH_ATTEMPTS: u32 = 5;

/// The bus subject for one shard's startup announcements.
pub fn shard_startup_topic(shard_id: u32) -> (r: String)
    ensures
        r@ == "discord.shards."@ + dec_digits(shard_id as nat) + ".startup"@,
{
    let mut s = String::from_str("discord.shards.");
    push_dec_u32(&mut s, shard_id);
    s.append(".startup");
    proof {
        assert(s@ =~= "discord.shards."@ + dec_digits(shard_id as nat) + ".startup"@);
    }
    s
}

/// The bus subject one shard's frames are forwarded on.
pub fn shard_events_topic(shard_id: u32) -> (r: String)
    ensures
        r@ == "discord.shards."@ + dec_digits(shard_id as nat) + ".events"@,
{
    let mut s = String::from_str("discord.shards.");
    push_dec_u32(&mut s, shard_id);
    s.append(".events");
    proof {
        assert(s@ =~= "discord.shards."@ + dec_digits(shard_id as nat) + ".events"@);
    }
    s
}

/// The announcement a runner publishes before pumping frames.
pub fn shard_starting_message(shard_id: u32) -> (r: String)
    ensures
        r@ == "Shard "@ + dec_digits(shard_id as nat) + " is starting"@,
{
    let mut s = String::from_str("Shard ");
    push_dec_u32(&mut s, shard_id);
    s.append(" is starting");
    proof {
        assert(s@ =~= "Shard "@ + dec_digits(shard_id as nat) + " is starting"@);
    }
    s
}

/// One item handed to the runner by the gateway stream.
pub enum GatewayItem {
    /// A text frame, forwarded verbatim.
    Text(String),
    /// A close frame: not forwarded and not terminal.
    Close,
    /// The gateway asks for a fresh connection: terminal for this pass.
    ReconnectError,
    /// Any other receive error: logged, pumping goes on.
    TransientError,
}

/// What the pump loop must do with one inbound item.
pub enum RunnerStep {
    /// Publish this payload on the shard's events subject, with the
    /// bounded retry, before receiving the next frame.
    Publish { topic: String, payload: String },
    /// Do nothing and receive the next frame.
    Continue,
    /// Return the error to the supervisor, which restarts after the
    /// cool-off; nothing is published for this item.
    Fail,
}

/// Decides one pump iteration. Every text frame becomes exactly one
/// publish of its own payload on this shard's events subject; close
/// frames and transient errors publish nothing and keep the pump alive;
/// a reconnect-class error ends the pass with nothing published.
pub fn runner_step(shard_id: u32, item: GatewayItem) -> (r: RunnerStep)
    ensures
        (item matches GatewayItem::Text(t) ==> (r matches RunnerStep::Publish { topic, payload }
            && topic@ == "discord.shards."@ + dec_digits(shard_id as nat) + ".events"@
            && payload@ == t@)),
        item is Close ==> r is Continue,
        item is TransientError ==> r is Continue,
        item is ReconnectError ==> r is Fail,
{
    match item {
        GatewayItem::Text(t) => RunnerStep::Publish {
            topic: shard_events_topic(shard_id),
            payload: t,
        },
        GatewayItem::Close => RunnerStep::Continue,
        GatewayItem::TransientError => RunnerStep::Continue,
        GatewayItem::ReconnectError => RunnerStep::Fail,
    }
}

/// A bounded retry allowance, counted down one attempt at a time.
pub struct RetryBudget {
    remaining: u32,
}

impl RetryBudget {
    pub closed spec fn remaining(self) -> u32 {
        self.remaining
    }

    /// A budget of `attempts` tries.
    pub fn new(attempts: u32) -> (r: RetryBudget)
        ensures
            r.remaining() == attempts,
    {
        RetryBudget { remaining: attempts }
    }

    /// Spends one attempt; says whether one was left to spend.
    pub fn next_attempt(&mut self) -> (ok: bool)
        ensures
            ok == (old(self).remaining() > 0),
            ok ==> final(self).remaining() == old(self).remaining() - 1,
            !ok ==> final(self).remaining() == 0,
    {
        if self.remaining > 0 {
            self.remaining = self.remaining - 1;
            true
        } else {
            false
        }
    }
}

} // verus!
