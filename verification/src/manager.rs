//! The worker's shard manager, modelled on the set of live shard
//! sessions: which sessions a worker owns, how a reshard reshapes that
//! set, and how the startup limiter caps concurrent handshakes.

use vstd::prelude::*;

use crate::config::Config;
use crate::text::parse_u32;

verus! {

/// Seconds to wait between two `start_shard` calls of one worker.
pub const INTER_SHARD_DELAY_SECS: u64 = 2;

/// Seconds a supervisor cools off after its runner fails.
pub const RESTART_DELAY_SECS: u64 = 5;

/// Seconds of stagger per worker group index.
pub const STAGGER_STEP_SECS: u64 = 10;

/// A shard id this worker should be running: inside its assigned range
/// and inside the fleet's current total. The assigned range itself never
/// moves at runtime; a reshard only clips it against the new total, so a
/// shrink stops the sessions past the total and a growth can only bring
/// back ids the range already named. Moving the range takes a fresh
/// replica rollout with fresh configuration.
pub open spec fn is_desired(c: Config, id: u32) -> bool {
    c.shard_id_start <= id <= c.shard_id_end && id < c.total_shards
}

/// Strictly increasing, so each id appears once.
pub open spec fn sorted_unique(s: Seq<u32>) -> bool {
    forall|i: int, j: int| 0 <= i < j < s.len() ==> s[i] < s[j]
}

proof fn lemma_push_contains(s: Seq<u32>, v: u32)
    ensures
        forall|x: u32| #[trigger] s.push(v).contains(x) == (x == v || s.contains(x)),
{
    assert forall|x: u32| #[trigger] s.push(v).contains(x) == (x == v || s.contains(x)) by {
        vstd::seq_lib::lemma_seq_contains_after_push(s, v, x);
    }
}

/// Limits how many shard handshakes may run at once: the worker-side
/// model of the startup semaphore.
pub struct StartupLimiter {
    max: u32,
    active: u32,
}

impl StartupLimiter {
    /// No more handshakes in flight than the cap allows.
    pub open spec fn wf(self) -> bool {
        self.active() <= self.max()
    }

    pub closed spec fn active(self) -> u32 {
        self.active
    }

    pub closed spec fn max(self) -> u32 {
        self.max
    }

    /// A fresh limiter with `max` permits and none taken.
    pub fn new(max: u32) -> (r: StartupLimiter)
        ensures
            r.wf(),
            r.max() == max,
            r.active() == 0,
    {
        StartupLimiter { max, active: 0 }
    }

    /// Takes one permit if one is free; says whether it did.
    pub fn try_acquire(&mut self) -> (ok: bool)
        requires
            old(self).wf(),
        ensures
            final(self).wf(),
            final(self).max() == old(self).max(),
            ok == (old(self).active() < old(self).max()),
            ok ==> final(self).active() == old(self).active() + 1,
            !ok ==> final(self).active() == old(self).active(),
    {
        if self.active < self.max {
            self.active = self.active + 1;
            true
        } else {
            false
        }
    }

    /// Returns one permit.
    pub fn release(&mut self)
        requires
            old(self).wf(),
            old(self).active() >= 1,
        ensures
            final(self).wf(),
            final(self).max() == old(self).max(),
            final(self).active() == old(self).active() - 1,
    {
        self.active = self.active - 1;
    }
}

/// One shard supervisor's place in its restart loop.
#[derive(Clone, Copy, Debug, PartialEq, Eq, Structural)]
pub enum SessionPhase {
    /// Not yet started, or cancelled.
    Idle,
    /// Publishing its startup request.
    Requesting,
    /// Holding a permit, opening the handshake.
    Holding,
    /// Runner pumping frames; the permit is still held.
    Running,
    /// Runner exited; waiting out the cool-off before the next pass.
    CoolingOff,
}

/// How many supervisors of the sequence are in the handshake region,
/// between permit acquisition and runner exit.
pub open spec fn handshake_count(phases: Seq<SessionPhase>) -> int
    decreases phases.len(),
{
    if phases.len() == 0 {
        0int
    } else {
        handshake_count(phases.drop_last()) + if phases.last() is Holding || phases.last()
            is Running {
            1int
        } else {
            0int
        }
    }
}

/// The supervisors and the limiter agree: every held permit is one
/// supervisor inside the handshake region.
pub open spec fn fleet_inv(phases: Seq<SessionPhase>, lim: StartupLimiter) -> bool {
    lim.wf() && handshake_count(phases) == lim.active()
}

/// At most `max` supervisors are in the handshake region at any instant
/// in which the supervisors and the limiter agree.
pub proof fn lemma_handshake_bound(phases: Seq<SessionPhase>, lim: StartupLimiter)
    requires
        fleet_inv(phases, lim),
    ensures
        handshake_count(phases) <= lim.max(),
{
}

proof fn lemma_handshake_count_update(phases: Seq<SessionPhase>, i: int, p: SessionPhase)
    requires
        0 <= i < phases.len(),
    ensures
        handshake_count(phases.update(i, p)) == handshake_count(phases) + (if p is Holding || p
            is Running {
            1int
        } else {
            0int
        }) - (if phases[i] is Holding || phases[i] is Running {
            1int
        } else {
            0int
        }),
    decreases phases.len(),
{
    let upd = phases.update(i, p);
    if i == phases.len() - 1 {
        assert(upd.drop_last() =~= phases.drop_last());
        assert(upd.last() == p);
    } else {
        lemma_handshake_count_update(phases.drop_last(), i, p);
        assert(upd.drop_last() =~= phases.drop_last().update(i, p));
        assert(upd.last() == phases.last());
    }
}

/// The supervisors of one worker, one phase per shard session, and the
/// limiter that caps their handshakes.
pub struct Supervisors {
    phases: Vec<SessionPhase>,
    limiter: StartupLimiter,
}

impl Supervisors {
    pub open spec fn wf(self) -> bool {
        fleet_inv(self.phases(), self.limiter())
    }

    pub closed spec fn phases(self) -> Seq<SessionPhase> {
        self.phases@
    }

    pub closed spec fn limiter(self) -> StartupLimiter {
        self.limiter
    }

    /// A fleet of `count` idle supervisors under a cap of `max`.
    pub fn new(count: usize, max: u32) -> (r: Supervisors)
        ensures
            r.wf(),
            r.phases().len() == count,
            forall|i: int| 0 <= i < count ==> r.phases()[i] is Idle,
            r.limiter().max() == max,
            r.limiter().active() == 0,
    {
        let mut phases: Vec<SessionPhase> = Vec::new();
        let mut k: usize = 0;
        while k < count
            invariant
                0 <= k <= count,
                phases@.len() == k,
                forall|i: int| 0 <= i < k ==> phases@[i] is Idle,
            decreases count - k,
        {
            phases.push(SessionPhase::Idle);
            k = k + 1;
        }
        proof {
            lemma_handshake_all_idle(phases@);
        }
        Supervisors { phases, limiter: StartupLimiter::new(max) }
    }

    /// Supervisor `i` publishes its startup request.
    pub fn begin_request(&mut self, i: usize)
        requires
            old(self).wf(),
            i < old(self).phases().len(),
            old(self).phases()[i as int] is Idle || old(self).phases()[i as int] is CoolingOff,
        ensures
            final(self).wf(),
            final(self).phases() == old(self).phases().update(i as int, SessionPhase::Requesting),
            final(self).limiter() == old(self).limiter(),
    {
        proof {
            lemma_handshake_count_update(self.phases@, i as int, SessionPhase::Requesting);
        }
        self.phases.set(i, SessionPhase::Requesting);
    }

    /// Supervisor `i` asks for a permit; it enters the handshake region
    /// exactly when one was free.
    pub fn try_enter_handshake(&mut self, i: usize) -> (ok: bool)
        requires
            old(self).wf(),
            i < old(self).phases().len(),
            old(self).phases()[i as int] is Requesting,
        ensures
            final(self).wf(),
            ok == (old(self).limiter().active() < old(self).limiter().max()),
            ok ==> final(self).phases() == old(self).phases().update(
                i as int,
                SessionPhase::Holding,
            ),
            !ok ==> final(self).phases() == old(self).phases(),
            final(self).limiter().max() == old(self).limiter().max(),
    {
        let ok = self.limiter.try_acquire();
        if ok {
            proof {
                lemma_handshake_count_update(self.phases@, i as int, SessionPhase::Holding);
            }
            self.phases.set(i, SessionPhase::Holding);
        }
        ok
    }

    /// Supervisor `i` hands the session to its runner; the permit stays
    /// held.
    pub fn begin_run(&mut self, i: usize)
        requires
            old(self).wf(),
            i < old(self).phases().len(),
            old(self).phases()[i as int] is Holding,
        ensures
            final(self).wf(),
            final(self).phases() == old(self).phases().update(i as int, SessionPhase::Running),
            final(self).limiter() == old(self).limiter(),
    {
        proof {
            lemma_handshake_count_update(self.phases@, i as int, SessionPhase::Running);
        }
        self.phases.set(i, SessionPhase::Running);
    }

    /// Supervisor `i`'s runner exited; the permit is returned and the
    /// supervisor cools off.
    pub fn finish_run(&mut self, i: usize)
        requires
            old(self).wf(),
            i < old(self).phases().len(),
            old(self).phases()[i as int] is Running,
        ensures
            final(self).wf(),
            final(self).phases() == old(self).phases().update(i as int, SessionPhase::CoolingOff),
            final(self).limiter().max() == old(self).limiter().max(),
            final(self).limiter().active() == old(self).limiter().active() - 1,
    {
        proof {
            lemma_handshake_count_update(self.phases@, i as int, SessionPhase::CoolingOff);
            lemma_handshake_count_bounds(self.phases@, i as int);
        }
        self.phases.set(i, SessionPhase::CoolingOff);
        self.limiter.release();
    }

    /// Supervisor `i` is cancelled from outside, in any phase; a held
    /// permit is returned.
    pub fn cancel(&mut self, i: usize)
        requires
            old(self).wf(),
            i < old(self).phases().len(),
        ensures
            final(self).wf(),
            final(self).phases() == old(self).phases().update(i as int, SessionPhase::Idle),
            final(self).limiter().max() == old(self).limiter().max(),
    {
        proof {
            lemma_handshake_count_update(self.phases@, i as int, SessionPhase::Idle);
            lemma_handshake_count_bounds(self.phases@, i as int);
        }
        let was_holding = match self.phases[i] {
            SessionPhase::Holding => true,
            SessionPhase::Running => true,
            _ => false,
        };
        self.phases.set(i, SessionPhase::Idle);
        if was_holding {
            self.limiter.release();
        }
    }
}

/// Seconds a supervisor sleeps after its runner exits before the next
/// pass: the cool-off after a failure, none after a clean stream end.
pub fn restart_delay_secs(runner_failed: bool) -> (r: u64)
    ensures
        runner_failed ==> r == RESTART_DELAY_SECS,
        !runner_failed ==> r == 0,
{
    if runner_failed {
        RESTART_DELAY_SECS
    } else {
        0
    }
}

/// One permitted move of a single supervisor's phase, exactly as the
/// operations of `Supervisors` make them: standing still, a fresh request
/// out of rest or cool-off (`begin_request`), a granted permit
/// (`try_enter_handshake`), the hand-off to the runner (`begin_run`), the
/// runner's exit (`finish_run`), and cancellation from anywhere
/// (`cancel`).
pub open spec fn session_step_ok(from: SessionPhase, to: SessionPhase) -> bool {
    ||| from == to
    ||| ((from is Idle || from is CoolingOff) && to is Requesting)
    ||| (from is Requesting && to is Holding)
    ||| (from is Holding && to is Running)
    ||| (from is Running && to is CoolingOff)
    ||| to is Idle
}

/// A history of one supervisor's phases in which every move is permitted.
pub open spec fn session_trace_ok(trace: Seq<SessionPhase>) -> bool {
    forall|k: int| 0 < k < trace.len() ==> session_step_ok(trace[k - 1], #[trigger] trace[k])
}

proof fn lemma_reentry_passes_requesting(trace: Seq<SessionPhase>)
    requires
        session_trace_ok(trace),
        trace.len() >= 1,
        trace[0] is CoolingOff,
        trace.last() is Running || trace.last() is Holding,
    ensures
        exists|k: int| 0 <= k < trace.len() && trace[k] is Requesting,
    decreases trace.len(),
{
    if trace.len() == 1 {
        // a cool-off is neither running nor holding
    } else {
        let prev = trace[trace.len() - 2];
        assert(session_step_ok(prev, trace.last()));
        if prev is Requesting {
            assert(trace[trace.len() - 2] is Requesting);
        } else {
            let front = trace.drop_last();
            assert(session_trace_ok(front)) by {
                assert forall|k: int|
                    0 < k < front.len() implies session_step_ok(front[k - 1], #[trigger] front[k]) by {
                    assert(front[k] == trace[k] && front[k - 1] == trace[k - 1]);
                }
            }
            assert(front.last() == prev);
            lemma_reentry_passes_requesting(front);
            let k = choose|k: int| 0 <= k < front.len() && front[k] is Requesting;
            assert(trace[k] is Requesting);
        }
    }
}

/// After a runner pass ends, a supervisor runs again only after a fresh
/// startup request: on any permitted history that starts at the cool-off
/// and ends running, some point in between is the requesting phase.
pub proof fn lemma_restart_requests_again(trace: Seq<SessionPhase>)
    requires
        session_trace_ok(trace),
        trace.len() >= 1,
        trace[0] is CoolingOff,
        trace.last() is Running,
    ensures
        exists|k: int| 0 <= k < trace.len() && trace[k] is Requesting,
{
    lemma_reentry_passes_requesting(trace);
}

proof fn lemma_handshake_all_idle(phases: Seq<SessionPhase>)
    requires
        forall|i: int| 0 <= i < phases.len() ==> phases[i] is Idle,
    ensures
        handshake_count(phases) == 0,
    decreases phases.len(),
{
    if phases.len() > 0 {
        lemma_handshake_all_idle(phases.drop_last());
    }
}

proof fn lemma_handshake_count_bounds(phases: Seq<SessionPhase>, i: int)
    requires
        0 <= i < phases.len(),
    ensures
        handshake_count(phases) >= 0,
        (phases[i] is Holding || phases[i] is Running) ==> handshake_count(phases) >= 1,
    decreases phases.len(),
{
    if phases.len() > 0 {
        if i == phases.len() - 1 {
            lemma_handshake_count_nonneg(phases.drop_last());
        } else {
            lemma_handshake_count_bounds(phases.drop_last(), i);
        }
    }
}

proof fn lemma_handshake_count_nonneg(phases: Seq<SessionPhase>)
    ensures
        handshake_count(phases) >= 0,
    decreases phases.len(),
{
    if phases.len() > 0 {
        lemma_handshake_count_nonneg(phases.drop_last());
    }
}

/// The index a worker reads from its own name: the suffix of
/// `stratum-group-<N>`, or zero when the name has no such shape.
pub open spec fn group_index_of(wid: Seq<char>) -> nat {
    if wid.len() > 14 && wid.subrange(0, 14) == "stratum-group-"@ && crate::text::all_digits(
        wid.skip(14),
    ) && crate::text::dec_val(wid.skip(14)) <= u32::MAX {
        crate::text::dec_val(wid.skip(14))
    } else {
        0
    }
}

/// Reads the group index out of a worker id.
pub fn startup_group_index(worker_id: &str) -> (r: u32)
    ensures
        r as nat == group_index_of(worker_id@),
{
    let n = worker_id.unicode_len();
    proof {
        reveal_strlit("stratum-group-");
    }
    if n <= 14 {
        return 0;
    }
    match crate::codec::expect_lit(worker_id, 0, "stratum-group-") {
        Some(_) => {
            let suffix = worker_id.substring_char(14, n);
            proof {
                assert(suffix@ == worker_id@.subrange(14, n as int));
                assert(suffix@ =~= worker_id@.skip(14));
            }
            match parse_u32(suffix) {
                Some(v) => v,
                None => 0,
            }
        },
        None => 0,
    }
}

/// The plan for a worker's initial bring-up: wait out the stagger, then
/// start each listed shard in order, pausing between them.
pub struct StartPlan {
    /// Seconds to sleep before the first shard.
    pub stagger_delay_secs: u64,
    /// The shards to start, in increasing order.
    pub shard_ids: Vec<u32>,
    /// Seconds to sleep between consecutive shards.
    pub pacing_secs: u64,
}

/// The worker's shard manager, modelled on its set of live sessions.
/// The handles of the spawned tasks live with the caller, keyed by the
/// same shard ids this model holds.
pub struct ShardManager {
    config: Config,
    sessions: Vec<u32>,
}

/// What a reshard asks the caller to do with its session tasks: cancel
/// the stopped ids first, then spawn the started ones, in this order.
pub struct UpdatePlan {
    /// Sessions to cancel, in increasing order.
    pub to_stop: Vec<u32>,
    /// Sessions to spawn, in increasing order.
    pub to_start: Vec<u32>,
}

/// The shard ids this worker should run, as a list in increasing order.
fn desired_ids(c: &Config) -> (r: Vec<u32>)
    ensures
        sorted_unique(r@),
        forall|id: u32| r@.contains(id) == is_desired(*c, id),
{
    let mut out: Vec<u32> = Vec::new();
    if c.total_shards == 0 || c.shard_id_start > c.shard_id_end || c.shard_id_start
        >= c.total_shards {
        proof {
            assert(forall|id: u32| !is_desired(*c, id));
        }
        return out;
    }
    let lo = c.shard_id_start;
    let hi = if c.shard_id_end <= c.total_shards - 1 {
        c.shard_id_end
    } else {
        c.total_shards - 1
    };
    let count: u64 = (hi - lo) as u64 + 1;
    let mut k: u64 = 0;
    while k < count
        invariant
            0 <= k <= count,
            count == hi - lo + 1,
            lo <= hi,
            lo == c.shard_id_start,
            hi < c.total_shards,
            hi == if c.shard_id_end <= c.total_shards - 1 {
                c.shard_id_end
            } else {
                (c.total_shards - 1) as u32
            },
            out@.len() == k,
            sorted_unique(out@),
            forall|j: int| 0 <= j < out@.len() ==> #[trigger] out@[j] == lo + j,
            forall|v: u32| out@.contains(v) == (lo <= v < lo + k),
        decreases count - k,
    {
        let id: u32 = lo + (k as u32);
        let ghost prev = out@;
        out.push(id);
        proof {
            lemma_push_contains(prev, id);
            assert(out@ == prev.push(id));
        }
        k = k + 1;
    }
    proof {
        assert(forall|v: u32| out@.contains(v) == (lo <= v <= hi));
        assert(forall|v: u32| (lo <= v <= hi) == is_desired(*c, v));
    }
    out
}

impl ShardManager {
    /// Sessions are listed once each, in increasing order.
    pub open spec fn wf(self) -> bool {
        sorted_unique(self.sessions())
    }

    pub closed spec fn config(self) -> Config {
        self.config
    }

    pub closed spec fn sessions(self) -> Seq<u32> {
        self.sessions@
    }

    /// Whether a session for `id` is live.
    pub open spec fn has_session(self, id: u32) -> bool {
        self.sessions().contains(id)
    }

    /// A manager for this worker with no sessions yet.
    pub fn new(config: Config) -> (r: ShardManager)
        ensures
            r.wf(),
            r.config() == config,
            r.sessions().len() == 0,
    {
        ShardManager { config, sessions: Vec::new() }
    }

    /// This worker's own name.
    pub fn worker_id(&self) -> (r: &str)
        ensures
            r@ == self.config().worker_id@,
    {
        self.config.worker_id.as_str()
    }

    /// Seconds this worker waits before its first handshake: ten per
    /// group index, and none at all for a name without the group shape.
    pub fn calculate_startup_delay(&self) -> (r: u64)
        ensures
            r == STAGGER_STEP_SECS * group_index_of(self.config().worker_id@),
    {
        let idx = startup_group_index(self.config.worker_id.as_str());
        10u64 * (idx as u64)
    }

    /// The initial bring-up plan: the stagger, then every desired shard
    /// in increasing order, paced two seconds apart.
    pub fn start_plan(&self) -> (r: StartPlan)
        ensures
            r.stagger_delay_secs == STAGGER_STEP_SECS * group_index_of(self.config().worker_id@),
            r.pacing_secs == INTER_SHARD_DELAY_SECS,
            sorted_unique(r.shard_ids@),
            forall|id: u32| r.shard_ids@.contains(id) == is_desired(self.config(), id),
    {
        StartPlan {
            stagger_delay_secs: self.calculate_startup_delay(),
            shard_ids: desired_ids(&self.config),
            pacing_secs: INTER_SHARD_DELAY_SECS,
        }
    }

    /// Records a session for `id` unless one is live already; says
    /// whether the caller must spawn a task for it.
    pub fn start_shard(&mut self, id: u32) -> (started: bool)
        requires
            old(self).wf(),
        ensures
            final(self).wf(),
            final(self).config() == old(self).config(),
            started == !old(self).has_session(id),
            forall|v: u32| final(self).has_session(v) == (old(self).has_session(v) || v == id),
    {
        let ghost s0 = self.sessions@;
        let n = self.sessions.len();
        let mut k: usize = 0;
        let mut found_bigger = false;
        while !found_bigger && k < n
            invariant
                0 <= k <= n,
                n == self.sessions@.len(),
                s0 == self.sessions@,
                s0 == old(self).sessions(),
                self.config == old(self).config(),
                sorted_unique(s0),
                forall|j: int| 0 <= j < k ==> s0[j] < id,
                found_bigger ==> k < n && s0[k as int] > id,
            decreases n - k, (if found_bigger { 0int } else { 1int }),
        {
            let v = self.sessions[k];
            if v == id {
                proof {
                    assert(s0.contains(id));
                }
                return false;
            }
            if v > id {
                found_bigger = true;
            } else {
                k = k + 1;
            }
        }
        proof {
            if s0.contains(id) {
                let j = choose|j: int| 0 <= j < s0.len() && s0[j] == id;
                if j >= k {
                    assert(found_bigger);
                    if j > k {
                        assert(s0[k as int] < s0[j]);
                    }
                }
                assert(false);
            }
        }
        self.sessions.insert(k, id);
        proof {
            s0.insert_ensures(k as int, id);
            let s1 = self.sessions@;
            assert(s1 == s0.insert(k as int, id));
            assert forall|v: u32| s1.contains(v) == (s0.contains(v) || v == id) by {
                if s1.contains(v) {
                    let j = choose|j: int| 0 <= j < s1.len() && s1[j] == v;
                    if j < k {
                        assert(s0[j] == v);
                    } else if j > k {
                        assert(s1[(j - 1) + 1] == s0[j - 1]);
                    }
                }
                if s0.contains(v) {
                    let j = choose|j: int| 0 <= j < s0.len() && s0[j] == v;
                    if j < k {
                        assert(s1[j] == v);
                    } else {
                        assert(s1[j + 1] == s0[j]);
                    }
                }
                if v == id {
                    assert(s1[k as int] == id);
                }
            }
            assert forall|a: int, b: int| 0 <= a < b < s1.len() implies s1[a] < s1[b] by {
                if b < k {
                    assert(s1[a] == s0[a] && s1[b] == s0[b]);
                } else if a > k {
                    assert(s1[(a - 1) + 1] == s0[a - 1]);
                    assert(s1[(b - 1) + 1] == s0[b - 1]);
                } else if a == k {
                    assert(s1[a] == id);
                    assert(s1[(b - 1) + 1] == s0[b - 1]);
                    assert(found_bigger && b - 1 >= k);
                    if b - 1 > k {
                        assert(s0[k as int] < s0[b - 1]);
                    }
                } else if b == k {
                    assert(s1[a] == s0[a]);
                    assert(s1[b] == id);
                } else {
                    assert(a < k && b > k);
                    assert(s1[a] == s0[a]);
                    assert(s1[(b - 1) + 1] == s0[b - 1]);
                    assert(found_bigger && b - 1 >= k);
                    assert(s0[a] < id);
                    if b - 1 > k {
                        assert(s0[k as int] < s0[b - 1]);
                    }
                }
            }
        }
        true
    }

    /// Drops the session for `id` if one is live; says whether the
    /// caller must cancel its task.
    pub fn stop_shard(&mut self, id: u32) -> (stopped: bool)
        requires
            old(self).wf(),
        ensures
            final(self).wf(),
            final(self).config() == old(self).config(),
            stopped == old(self).has_session(id),
            forall|v: u32| final(self).has_session(v) == (old(self).has_session(v) && v != id),
    {
        let ghost s0 = self.sessions@;
        let n = self.sessions.len();
        let mut k: usize = 0;
        while k < n
            invariant
                0 <= k <= n,
                n == self.sessions@.len(),
                s0 == self.sessions@,
                s0 == old(self).sessions(),
                self.config == old(self).config(),
                sorted_unique(s0),
                forall|j: int| 0 <= j < k ==> s0[j] != id,
            decreases n - k,
        {
            if self.sessions[k] == id {
                proof {
                    assert(s0[k as int] == id);
                    assert(s0.contains(id));
                }
                self.sessions.remove(k);
                proof {
                    s0.remove_ensures(k as int);
                    let s1 = self.sessions@;
                    assert(s1 == s0.remove(k as int));
                    assert forall|v: u32| s1.contains(v) == (s0.contains(v) && v != id) by {
                        if s1.contains(v) {
                            let j = choose|j: int| 0 <= j < s1.len() && s1[j] == v;
                            if j < k {
                                assert(s0[j] == v);
                                assert(s0[j] < s0[k as int]);
                            } else {
                                assert(s1[j] == s0[j + 1]);
                                assert(s0[k as int] < s0[j + 1]);
                            }
                        }
                        if s0.contains(v) && v != id {
                            let j = choose|j: int| 0 <= j < s0.len() && s0[j] == v;
                            assert(j != k);
                            if j < k {
                                assert(s1[j] == v);
                            } else {
                                assert(s1[j - 1] == s0[(j - 1) + 1]);
                            }
                        }
                    }
                    assert forall|a: int, b: int|
                        0 <= a < b < s1.len() implies s1[a] < s1[b] by {
                        if b < k {
                            assert(s1[a] == s0[a] && s1[b] == s0[b]);
                        } else if a >= k {
                            assert(s1[a] == s0[a + 1] && s1[b] == s0[b + 1]);
                        } else {
                            assert(s1[a] == s0[a] && s1[b] == s0[b + 1]);
                        }
                    }
                }
                return true;
            }
            k = k + 1;
        }
        proof {
            if s0.contains(id) {
                let j = choose|j: int| 0 <= j < s0.len() && s0[j] == id;
                assert(false);
            }
        }
        false
    }

    /// Applies a reshard: adopts the new total, then reshapes the live
    /// session set to exactly the newly desired ids. The plan lists what
    /// the caller must do with its tasks: cancel every stopped id, then
    /// spawn every started one, in that order.
    pub fn update_shards(&mut self, new_total_shards: u32) -> (plan: UpdatePlan)
        requires
            old(self).wf(),
        ensures
            final(self).wf(),
            final(self).config() == (Config {
                total_shards: new_total_shards,
                ..old(self).config()
            }),
            // the live set afterwards is exactly the desired set
            forall|id: u32|
                final(self).has_session(id) == is_desired(final(self).config(), id),
            sorted_unique(plan.to_stop@),
            sorted_unique(plan.to_start@),
            forall|id: u32|
                plan.to_stop@.contains(id) == (old(self).has_session(id) && !is_desired(
                    final(self).config(),
                    id,
                )),
            forall|id: u32|
                plan.to_start@.contains(id) == (is_desired(final(self).config(), id) && !old(
                    self,
                ).has_session(id)),
    {
        self.config.total_shards = new_total_shards;
        let desired = desired_ids(&self.config);
        let ghost cfg = self.config;
        let ghost s_old = self.sessions@;
        // what to stop: live sessions that are no longer desired
        let mut to_stop: Vec<u32> = Vec::new();
        let mut k: usize = 0;
        let n = self.sessions.len();
        while k < n
            invariant
                0 <= k <= n,
                n == self.sessions@.len(),
                s_old == self.sessions@,
                cfg == self.config,
                sorted_unique(s_old),
                sorted_unique(to_stop@),
                forall|j: int| 0 <= j < to_stop@.len() ==> s_old.contains(#[trigger] to_stop@[j]),
                forall|j: int|
                    0 <= j < to_stop@.len() ==> exists|m: int|
                        0 <= m < k && s_old[m] == #[trigger] to_stop@[j],
                forall|id: u32|
                    to_stop@.contains(id) == (exists|m: int|
                        0 <= m < k && s_old[m] == id && !is_desired(cfg, id)),
            decreases n - k,
        {
            let id = self.sessions[k];
            let keep = {
                let c = &self.config;
                c.shard_id_start <= id && id <= c.shard_id_end && id < c.total_shards
            };
            if !keep {
                proof {
                    assert forall|j: int|
                        0 <= j < to_stop@.len() implies #[trigger] to_stop@[j] < id by {
                        let m = choose|m: int| 0 <= m < k && s_old[m] == to_stop@[j];
                        assert(s_old[m] < s_old[k as int]);
                    }
                }
                let ghost prev = to_stop@;
                to_stop.push(id);
                proof {
                    lemma_push_contains(prev, id);
                    assert(to_stop@ == prev.push(id));
                }
            }
            k = k + 1;
        }
        // what to start: desired ids with no live session
        let mut to_start: Vec<u32> = Vec::new();
        let mut k2: usize = 0;
        let dn = desired.len();
        while k2 < dn
            invariant
                0 <= k2 <= dn,
                dn == desired@.len(),
                cfg == self.config,
                s_old == self.sessions@,
                sorted_unique(desired@),
                forall|id: u32| desired@.contains(id) == is_desired(cfg, id),
                sorted_unique(to_start@),
                forall|j: int|
                    0 <= j < to_start@.len() ==> exists|m: int|
                        0 <= m < k2 && desired@[m] == #[trigger] to_start@[j],
                forall|id: u32|
                    to_start@.contains(id) == (exists|m: int|
                        0 <= m < k2 && desired@[m] == id && !s_old.contains(id)),
            decreases dn - k2,
        {
            let id = desired[k2];
            let mut have = false;
            let mut m: usize = 0;
            let sn = self.sessions.len();
            while !have && m < sn
                invariant
                    0 <= m <= sn,
                    sn == s_old.len(),
                    s_old == self.sessions@,
                    forall|j: int| 0 <= j < m ==> s_old[j] != id,
                    have ==> m < sn && s_old[m as int] == id,
                decreases sn - m, (if have { 0int } else { 1int }),
            {
                if self.sessions[m] == id {
                    have = true;
                } else {
                    m = m + 1;
                }
            }
            proof {
                if !have && s_old.contains(id) {
                    let j = choose|j: int| 0 <= j < s_old.len() && s_old[j] == id;
                    assert(false);
                }
            }
            if !have {
                proof {
                    assert forall|j: int|
                        0 <= j < to_start@.len() implies #[trigger] to_start@[j] < id by {
                        let mm = choose|mm: int| 0 <= mm < k2 && desired@[mm] == to_start@[j];
                        assert(desired@[mm] < desired@[k2 as int]);
                    }
                }
                let ghost prev = to_start@;
                to_start.push(id);
                proof {
                    lemma_push_contains(prev, id);
                    assert(to_start@ == prev.push(id));
                }
            }
            k2 = k2 + 1;
        }
        self.sessions = desired;
        proof {
            assert forall|id: u32|
                to_stop@.contains(id) == (s_old.contains(id) && !is_desired(cfg, id)) by {
                if s_old.contains(id) && !is_desired(cfg, id) {
                    let m = choose|m: int| 0 <= m < s_old.len() && s_old[m] == id;
                    assert(exists|m2: int| 0 <= m2 < n && s_old[m2] == id && !is_desired(cfg, id));
                }
            }
            assert forall|id: u32|
                to_start@.contains(id) == (is_desired(cfg, id) && !s_old.contains(id)) by {
                if is_desired(cfg, id) && !s_old.contains(id) {
                    let m = choose|m: int| 0 <= m < desired@.len() && desired@[m] == id;
                    assert(exists|m2: int|
                        0 <= m2 < dn && desired@[m2] == id && !s_old.contains(id));
                }
            }
        }
        UpdatePlan { to_stop, to_start }
    }

    /// Ends every session; returns the ids whose tasks the caller must
    /// cancel, in increasing order.
    pub fn shutdown(&mut self) -> (stopped: Vec<u32>)
        requires
            old(self).wf(),
        ensures
            final(self).wf(),
            final(self).config() == old(self).config(),
            final(self).sessions().len() == 0,
            stopped@ == old(self).sessions(),
    {
        let mut stopped: Vec<u32> = Vec::new();
        core::mem::swap(&mut stopped, &mut self.sessions);
        stopped
    }
}

} // verus!
