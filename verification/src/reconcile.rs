//! The operator's reconcile decisions: the rate-limit gate in front of
//! the vendor call, the plan that reshapes the replica fleet, the worker
//! environment each replica is given, and the requeue policy on errors.

use vstd::prelude::*;

use crate::partition::{calculate_shard_groups, wf_groups, ShardGroup};
use crate::text::{dec_digits, u32_to_string};

verus! {

/// Seconds before a cluster is reconciled again after a full pass.
pub const REQUEUE_OK_SECS: u64 = 1800;

/// Seconds a cluster waits when its status was refreshed recently.
pub const REQUEUE_RECENT_SECS: u64 = 600;

/// Seconds to back off after a vendor rate limit.
pub const REQUEUE_RATE_LIMIT_SECS: u64 = 300;

/// Seconds to back off after any other reconcile error.
pub const REQUEUE_ERROR_SECS: u64 = 120;

/// Seconds under which a fresh `last_reshard` suppresses the vendor call.
pub const RATE_LIMIT_WINDOW_SECS: u64 = 600;

/// Desired state of one shard cluster.
#[derive(Clone, Debug)]
pub struct ShardClusterSpec {
    /// Name of the secret holding the vendor API token.
    pub discord_token_secret: String,
    /// Bus server URL handed to every worker.
    pub nats_url: String,
    /// Container image the workers run.
    pub image: String,
    /// Replicas per worker group.
    pub replicas_per_shard_group: i32,
    /// How many shards one replica serves.
    pub shards_per_replica: u32,
    /// Hours between scheduled reshard checks.
    pub reshard_interval_hours: u64,
}

/// Observed state of one shard cluster; the reconciler alone writes it.
/// The reshard instant is carried as unix seconds.
#[derive(Clone, Debug)]
pub struct ShardClusterStatus {
    pub current_shards: Option<u32>,
    pub last_reshard: Option<i64>,
    pub shard_groups: Vec<ShardGroup>,
    pub phase: String,
}

/// Whether a reconcile pass at `now_unix` must skip the vendor call: the
/// status was refreshed under ten minutes ago (a clock that ran backwards
/// counts as recent too).
pub fn recently_resharded(last_reshard: Option<i64>, now_unix: i64) -> (r: bool)
    ensures
        r == (last_reshard matches Some(t) && now_unix - t < RATE_LIMIT_WINDOW_SECS as int),
{
    match last_reshard {
        Some(t) => (now_unix as i128) - (t as i128) < RATE_LIMIT_WINDOW_SECS as i128,
        None => false,
    }
}

/// The first decision of a reconcile pass.
#[derive(Clone, Copy, Debug, PartialEq, Eq, Structural)]
pub enum ReconcileGate {
    /// Status is fresh: requeue after these seconds; call no vendor API
    /// and touch no replica.
    SkipRecent { requeue_secs: u64 },
    /// Go on: resolve the token and ask the vendor.
    FetchGatewayInfo,
}

/// Gates one reconcile pass: within ten minutes of the last reshard no
/// vendor call is made and nothing is mutated.
pub fn reconcile_gate(status: &Option<ShardClusterStatus>, now_unix: i64) -> (r: ReconcileGate)
    ensures
        r == (if status matches Some(st) && (st.last_reshard matches Some(t) && now_unix - t
            < RATE_LIMIT_WINDOW_SECS as int) {
            ReconcileGate::SkipRecent { requeue_secs: REQUEUE_RECENT_SECS }
        } else {
            ReconcileGate::FetchGatewayInfo
        }),
{
    match status {
        Some(st) => {
            if recently_resharded(st.last_reshard, now_unix) {
                ReconcileGate::SkipRecent { requeue_secs: REQUEUE_RECENT_SECS }
            } else {
                ReconcileGate::FetchGatewayInfo
            }
        },
        None => ReconcileGate::FetchGatewayInfo,
    }
}

/// What one reconcile pass, after the vendor answered, asks of the
/// caller.
pub struct ReconcilePlan {
    /// The partitioning the fleet must converge to.
    pub desired_groups: Vec<ShardGroup>,
    /// Whether the replica set must be reconciled at all: the group
    /// count changed.
    pub needs_deployment_update: bool,
    /// The status to persist, with `last_reshard` at the present pass.
    pub new_status: ShardClusterStatus,
    /// Seconds until the next scheduled pass.
    pub requeue_secs: u64,
}

/// Plans the rest of a reconcile pass once the vendor has answered with
/// `recommended_shards`: the fleet is repartitioned, replicas are touched
/// exactly when the group count changed, and the status records the pass.
pub fn plan_reconcile(
    spec: &ShardClusterSpec,
    status: &Option<ShardClusterStatus>,
    recommended_shards: u32,
    now_unix: i64,
) -> (r: ReconcilePlan)
    requires
        spec.shards_per_replica >= 1,
    ensures
        wf_groups(
            r.desired_groups@,
            recommended_shards as int,
            spec.shards_per_replica as int,
        ),
        r.needs_deployment_update == (r.desired_groups@.len() != (match status {
            Some(st) => st.shard_groups@.len(),
            None => 0,
        })),
        r.new_status.current_shards == Some(recommended_shards),
        r.new_status.last_reshard == Some(now_unix),
        r.new_status.shard_groups@ == r.desired_groups@,
        r.new_status.phase@ == "Active"@,
        r.requeue_secs == REQUEUE_OK_SECS,
        recommended_shards == 0 ==> r.desired_groups@.len() == 0,
{
    let desired_groups = calculate_shard_groups(recommended_shards, spec.shards_per_replica);
    let current_len = match status {
        Some(st) => st.shard_groups.len(),
        None => 0,
    };
    let needs_deployment_update = desired_groups.len() != current_len;
    let mut status_groups: Vec<ShardGroup> = Vec::new();
    let mut k: usize = 0;
    while k < desired_groups.len()
        invariant
            0 <= k <= desired_groups@.len(),
            status_groups@.len() == k,
            forall|j: int| 0 <= j < k ==> status_groups@[j] == desired_groups@[j],
        decreases desired_groups@.len() - k,
    {
        let g = &desired_groups[k];
        status_groups.push(
            ShardGroup {
                deployment_name: g.deployment_name.clone(),
                shard_start: g.shard_start,
                shard_end: g.shard_end,
                replicas: g.replicas,
            },
        );
        k = k + 1;
    }
    proof {
        assert(status_groups@ =~= desired_groups@);
    }
    let new_status = ShardClusterStatus {
        current_shards: Some(recommended_shards),
        last_reshard: Some(now_unix),
        shard_groups: status_groups,
        phase: String::from_str("Active"),
    };
    ReconcilePlan { desired_groups, needs_deployment_update, new_status, requeue_secs: 1800 }
}

/// Whether `pat` occurs in `s` as a contiguous run.
pub open spec fn has_substring(s: Seq<char>, pat: Seq<char>) -> bool {
    exists|i: int| 0 <= i <= s.len() - pat.len() && #[trigger] s.subrange(i, i + pat.len()) == pat
}

/// Finds `pat` in `s`.
pub fn contains_substring(s: &str, pat: &str) -> (r: bool)
    ensures
        r == has_substring(s@, pat@),
{
    let n = s.unicode_len();
    let m = pat.unicode_len();
    if m > n {
        proof {
            assert(!has_substring(s@, pat@));
        }
        return false;
    }
    if m == 0 {
        proof {
            assert(s@.subrange(0, 0 + pat@.len() as int) =~= pat@);
        }
        return true;
    }
    let mut i: usize = 0;
    while i <= n - m
        invariant
            0 <= i <= n - m + 1,
            1 <= m <= n,
            n == s@.len(),
            m == pat@.len(),
            forall|p: int| 0 <= p < i ==> #[trigger] s@.subrange(p, p + pat@.len()) != pat@,
        decreases n - m + 1 - i,
    {
        match crate::codec::expect_lit(s, i, pat) {
            Some(_) => {
                proof {
                    assert(s@.subrange(i as int, i + pat@.len()) == pat@);
                }
                return true;
            },
            None => {},
        }
        i = i + 1;
    }
    proof {
        if has_substring(s@, pat@) {
            let p = choose|p: int|
                0 <= p <= s@.len() - pat@.len() && #[trigger] s@.subrange(p, p + pat@.len())
                    == pat@;
            assert(false);
        }
    }
    false
}

/// Seconds to requeue after a failed reconcile: five minutes when the
/// error text speaks of a rate limit, two minutes otherwise.
pub fn error_policy(error_text: &str) -> (r: u64)
    ensures
        r == (if has_substring(error_text@, "429"@) || has_substring(
            error_text@,
            "rate limit"@,
        ) {
            REQUEUE_RATE_LIMIT_SECS as int
        } else {
            REQUEUE_ERROR_SECS as int
        }),
{
    if contains_substring(error_text, "429") || contains_substring(error_text, "rate limit") {
        300
    } else {
        120
    }
}

/// Whether a scheduler tick at `now_unix` should trigger a reshard: a
/// cluster with no recorded reshard is always triggered; one with a
/// record is triggered when the configured interval has elapsed.
pub fn should_reshard(
    last_reshard: Option<i64>,
    reshard_interval_hours: u64,
    now_unix: i64,
) -> (r: bool)
    ensures
        r == (match last_reshard {
            Some(t) => (if now_unix >= t {
                now_unix - t
            } else {
                0int
            }) >= reshard_interval_hours * 3600,
            None => true,
        }),
{
    match last_reshard {
        Some(t) => {
            let elapsed: i128 = if (now_unix as i128) >= (t as i128) {
                (now_unix as i128) - (t as i128)
            } else {
                0
            };
            proof {
                assert((reshard_interval_hours as int) * 3600 <= u64::MAX as int * 3600);
            }
            elapsed >= (reshard_interval_hours as i128) * 3600
        },
        None => true,
    }
}

/// The environment a worker replica is created with, in order: bus URL,
/// shard range, fleet total, its own name, and its handshake budget. The
/// vendor token travels separately, by secret reference.
pub fn worker_env(
    group: &ShardGroup,
    nats_url: &str,
    total_shards: u32,
    max_concurrency: u32,
) -> (r: Vec<(String, String)>)
    ensures
        r.deep_view() =~= seq![
            ("NATS_URL"@, nats_url@),
            ("SHARD_ID_START"@, dec_digits(group.shard_start as nat)),
            ("SHARD_ID_END"@, dec_digits(group.shard_end as nat)),
            ("TOTAL_SHARDS"@, dec_digits(total_shards as nat)),
            ("WORKER_ID"@, group.deployment_name@),
            ("MAX_CONCURRENCY"@, dec_digits(max_concurrency as nat)),
        ],
{
    let mut r: Vec<(String, String)> = Vec::new();
    r.push((String::from_str("NATS_URL"), String::from_str(nats_url)));
    r.push((String::from_str("SHARD_ID_START"), u32_to_string(group.shard_start)));
    r.push((String::from_str("SHARD_ID_END"), u32_to_string(group.shard_end)));
    r.push((String::from_str("TOTAL_SHARDS"), u32_to_string(total_shards)));
    r.push((String::from_str("WORKER_ID"), group.deployment_name.clone()));
    r.push((String::from_str("MAX_CONCURRENCY"), u32_to_string(max_concurrency)));
    r
}

/// The labels every owned replica carries.
pub fn worker_labels(group: &ShardGroup, cluster_name: &str) -> (r: Vec<(String, String)>)
    ensures
        r.deep_view() =~= seq![
            ("app"@, "stratum"@),
            ("shard-group"@, group.deployment_name@),
            ("managed-by"@, "crust-operator"@),
            ("cluster"@, cluster_name@),
        ],
{
    let mut r: Vec<(String, String)> = Vec::new();
    r.push((String::from_str("app"), String::from_str("stratum")));
    r.push((String::from_str("shard-group"), group.deployment_name.clone()));
    r.push((String::from_str("managed-by"), String::from_str("crust-operator")));
    r.push((String::from_str("cluster"), String::from_str(cluster_name)));
    r
}

/// The list-query selector that finds this cluster's replicas.
pub fn owned_replica_selector(cluster_name: &str) -> (r: String)
    ensures
        r@ == "managed-by=crust-operator,app=stratum,cluster="@ + cluster_name@,
{
    let mut s = String::from_str("managed-by=crust-operator,app=stratum,cluster=");
    s.append(cluster_name);
    s
}

/// The names of the desired groups, as views.
pub open spec fn group_names(gs: Seq<ShardGroup>) -> Seq<Seq<char>> {
    gs.map(|i: int, g: ShardGroup| g.deployment_name@)
}

/// The names of `existing` that no desired group carries, in their
/// original order.
pub open spec fn doomed_names(existing: Seq<Seq<char>>, desired: Seq<ShardGroup>) -> Seq<
    Seq<char>,
> {
    existing.filter(|n: Seq<char>| !group_names(desired).contains(n))
}

/// Which of the existing replicas must be deleted: exactly those whose
/// name no desired group carries, once each, in their order within
/// `existing`.
pub fn deployments_to_delete(existing: &Vec<String>, desired: &Vec<ShardGroup>) -> (r: Vec<
    String,
>)
    ensures
        r.deep_view() == doomed_names(existing.deep_view(), desired@),
        forall|n: Seq<char>|
            r.deep_view().contains(n) == (existing.deep_view().contains(n) && !group_names(
                desired@,
            ).contains(n)),
{
    let mut r: Vec<String> = Vec::new();
    let n = existing.len();
    let mut i: usize = 0;
    proof {
        reveal(Seq::filter);
        assert(r.deep_view() =~= Seq::<Seq<char>>::empty());
        assert(existing.deep_view().take(0) =~= Seq::<Seq<char>>::empty());
    }
    while i < n
        invariant
            0 <= i <= n,
            n == existing@.len(),
            r.deep_view() == doomed_names(existing.deep_view().take(i as int), desired@),
            forall|nm: Seq<char>|
                r.deep_view().contains(nm) == (exists|j: int|
                    0 <= j < i && existing.deep_view()[j] == nm && !group_names(
                        desired@,
                    ).contains(nm)),
        decreases n - i,
    {
        let name = &existing[i];
        let mut kept = false;
        let m = desired.len();
        let mut k: usize = 0;
        while !kept && k < m
            invariant
                0 <= k <= m,
                m == desired@.len(),
                forall|j: int| 0 <= j < k ==> group_names(desired@)[j] != name@,
                kept ==> k < m && group_names(desired@)[k as int] == name@,
            decreases m - k, (if kept { 0int } else { 1int }),
        {
            if desired[k].deployment_name.eq(name) {
                kept = true;
            } else {
                k = k + 1;
            }
        }
        proof {
            if !kept && group_names(desired@).contains(name@) {
                let j = choose|j: int|
                    0 <= j < group_names(desired@).len() && group_names(desired@)[j] == name@;
                assert(false);
            }
        }
        let ghost prev = r.deep_view();
        if !kept {
            r.push(name.clone());
        }
        proof {
            assert(existing.deep_view()[i as int] == name@);
            // one filter step over the freshly scanned name
            reveal(Seq::filter);
            let dv = existing.deep_view();
            assert(dv.take(i + 1).drop_last() =~= dv.take(i as int));
            assert(dv.take(i + 1).last() == name@);
            assert(r.deep_view() == doomed_names(dv.take(i + 1), desired@));
            if !kept {
                assert(r.deep_view() =~= prev.push(name@));
                assert forall|nm: Seq<char>| #[trigger] r.deep_view().contains(nm) == (nm == name@
                    || prev.contains(nm)) by {
                    vstd::seq_lib::lemma_seq_contains_after_push(prev, name@, nm);
                }
            }
            assert forall|nm: Seq<char>|
                r.deep_view().contains(nm) == (exists|j: int|
                    0 <= j < i + 1 && existing.deep_view()[j] == nm && !group_names(
                        desired@,
                    ).contains(nm)) by {
                if r.deep_view().contains(nm) {
                    if !kept && nm == name@ {
                        assert(existing.deep_view()[i as int] == nm);
                    }
                }
                if exists|j: int|
                    0 <= j < i + 1 && existing.deep_view()[j] == nm && !group_names(
                        desired@,
                    ).contains(nm) {
                    let j = choose|j: int|
                        0 <= j < i + 1 && existing.deep_view()[j] == nm && !group_names(
                            desired@,
                        ).contains(nm);
                    if j == i {
                        assert(nm == name@);
                        assert(!kept);
                        assert(r.deep_view().contains(nm));
                    } else {
                        assert(prev.contains(nm));
                        if !kept {
                            assert(r.deep_view().contains(nm));
                        }
                    }
                }
            }
        }
        i = i + 1;
    }
    proof {
        assert(existing.deep_view().take(n as int) =~= existing.deep_view());
        assert forall|nm: Seq<char>|
            r.deep_view().contains(nm) == (existing.deep_view().contains(nm) && !group_names(
                desired@,
            ).contains(nm)) by {
            if existing.deep_view().contains(nm) && !group_names(desired@).contains(nm) {
                let j = choose|j: int|
                    0 <= j < existing.deep_view().len() && existing.deep_view()[j] == nm;
                assert(exists|j2: int|
                    0 <= j2 < n && existing.deep_view()[j2] == nm && !group_names(
                        desired@,
                    ).contains(nm));
            }
        }
    }
    r
}

/// Why no vendor token could be taken from a secret.
#[derive(Clone, Copy, Debug, PartialEq, Eq, Structural)]
pub enum TokenError {
    /// The secret carries no data block at all.
    NoData,
    /// The data block has no `token` entry.
    MissingKey,
    /// The `token` entry is not UTF-8 text.
    InvalidUtf8,
}

/// Takes the vendor token out of a secret's data: the first `token`
/// entry, decoded as UTF-8 text.
pub fn token_from_secret(data: Option<Vec<(String, Vec<u8>)>>) -> (r: Result<String, TokenError>)
    ensures
        data is None ==> r == Result::<String, TokenError>::Err(TokenError::NoData),
        (data matches Some(es) && (forall|i: int|
            0 <= i < es.deep_view().len() ==> (#[trigger] es.deep_view()[i]).0 != "token"@))
            ==> r == Result::<String, TokenError>::Err(TokenError::MissingKey),
        (r matches Ok(s) ==> (data matches Some(es) && exists|i: int|
            0 <= i < es.deep_view().len() && (#[trigger] es.deep_view()[i]).0 == "token"@ && s@
                == crate::text::utf8_chars(es.deep_view()[i].1))),
        (r == Result::<String, TokenError>::Err(TokenError::InvalidUtf8) ==> (data matches Some(
            es,
        ) && exists|i: int|
            0 <= i < es.deep_view().len() && (#[trigger] es.deep_view()[i]).0 == "token"@)),
        // a held token yields either its text or the decode failure
        (data matches Some(es) && (exists|i: int|
            0 <= i < es.deep_view().len() && (#[trigger] es.deep_view()[i]).0 == "token"@)) ==> (r
            is Ok || r == Result::<String, TokenError>::Err(TokenError::InvalidUtf8)),
        // a first token entry of plain ASCII bytes always decodes
        (data matches Some(es) && (exists|i: int|
            0 <= i < es.deep_view().len() && (#[trigger] es.deep_view()[i]).0 == "token"@ && (
            forall|j: int| 0 <= j < i ==> (#[trigger] es.deep_view()[j]).0 != "token"@) && (
            forall|k: int|
                0 <= k < es.deep_view()[i].1.len() ==> #[trigger] es.deep_view()[i].1[k]
                    < 0x80))) ==> r is Ok,
{
    let entries = match data {
        Some(es) => es,
        None => {
            return Err(TokenError::NoData);
        },
    };
    let n = entries.len();
    let key = String::from_str("token");
    proof {
        reveal_strlit("token");
    }
    let mut found = false;
    let mut idx: usize = 0;
    while !found && idx < n
        invariant
            0 <= idx <= n,
            n == entries@.len(),
            key@ == "token"@,
            forall|j: int| 0 <= j < idx ==> (#[trigger] entries.deep_view()[j]).0 != "token"@,
            found ==> idx < n && entries.deep_view()[idx as int].0 == "token"@,
        decreases n - idx, (if found { 0int } else { 1int }),
    {
        if entries[idx].0.eq(&key) {
            found = true;
            proof {
                assert(entries.deep_view()[idx as int].0 == entries@[idx as int].0@);
            }
        } else {
            proof {
                assert(entries.deep_view()[idx as int].0 == entries@[idx as int].0@);
            }
            idx = idx + 1;
        }
    }
    if !found {
        proof {
            if exists|i: int|
                0 <= i < entries.deep_view().len() && (#[trigger] entries.deep_view()[i]).0
                    == "token"@ {
                let i = choose|i: int|
                    0 <= i < entries.deep_view().len() && (#[trigger] entries.deep_view()[i]).0
                        == "token"@;
                assert(false);
            }
        }
        return Err(TokenError::MissingKey);
    }
    let mut bytes: Vec<u8> = Vec::new();
    let m = entries[idx].1.len();
    let mut k: usize = 0;
    while k < m
        invariant
            0 <= k <= m,
            idx < entries@.len(),
            m == entries@[idx as int].1@.len(),
            bytes@ == entries@[idx as int].1@.take(k as int),
        decreases m - k,
    {
        let b = entries[idx].1[k];
        bytes.push(b);
        proof {
            assert(bytes@ =~= entries@[idx as int].1@.take(k + 1));
        }
        k = k + 1;
    }
    proof {
        assert(bytes@ =~= entries@[idx as int].1@);
        assert(entries.deep_view()[idx as int].1 == entries@[idx as int].1@);
    }
    match crate::text::utf8_to_string(bytes) {
        Some(s) => Ok(s),
        None => {
            // decoding failed, so some byte of the first token entry is
            // not ASCII: the all-ASCII promise cannot apply
            proof {
                let dv = entries.deep_view();
                if exists|i: int|
                    0 <= i < dv.len() && (#[trigger] dv[i]).0 == "token"@ && (forall|j: int|
                        0 <= j < i ==> (#[trigger] dv[j]).0 != "token"@) && (forall|k: int|
                        0 <= k < dv[i].1.len() ==> #[trigger] dv[i].1[k] < 0x80) {
                    let i = choose|i: int|
                        0 <= i < dv.len() && (#[trigger] dv[i]).0 == "token"@ && (forall|j: int|
                            0 <= j < i ==> (#[trigger] dv[j]).0 != "token"@) && (forall|k: int|
                            0 <= k < dv[i].1.len() ==> #[trigger] dv[i].1[k] < 0x80);
                    assert(i == idx);
                    assert(false);
                }
            }
            Err(TokenError::InvalidUtf8)
        },
    }
}


} // verus!
