//! The debounce scheduler: drains raw edges, keeps one deadline per line,
//! decides which lines have settled, and computes the next wake tick.
//!
//! The owning loop runs elsewhere (it sleeps and samples hardware); each of
//! its decisions is a method here. Per iteration: `collect_expired` at the
//! current tick, sample and emit the collected lines, `absorb_pending`,
//! then sleep until `next_wake`.

use vstd::prelude::*;
use crate::channel::{chan_clone, chan_len, chan_new, chan_send, chan_try_recv};
use crate::tracker::{expired_set, still_pending, DeadlineTracker};

verus! {

/// The tick at which a window opened by an edge at `instant` closes: one
/// debounce duration later, saturating at the largest tick.
pub open spec fn deadline_for(instant: u64, debounce: u64) -> u64 {
    if instant + debounce > u64::MAX {
        u64::MAX
    } else {
        (instant + debounce) as u64
    }
}

/// The tracker mapping after an edge on `pin` at `instant` is recorded:
/// the line's window is opened or extended, every other line untouched.
pub open spec fn record_spec(m: Map<u8, u64>, pin: u8, instant: u64, debounce: u64) -> Map<
    u8,
    u64,
> {
    m.insert(pin, deadline_for(instant, debounce))
}

/// The tracker mapping after a whole burst of edges on `pin`, recorded in
/// arrival order.
pub open spec fn record_all(m: Map<u8, u64>, pin: u8, instants: Seq<u64>, debounce: u64) -> Map<
    u8,
    u64,
>
    decreases instants.len(),
{
    if instants.len() == 0 {
        m
    } else {
        record_spec(record_all(m, pin, instants.drop_last(), debounce), pin, instants.last(), debounce)
    }
}

/// Coalescing: a burst of edges on one line, however many and however
/// spaced, collapses to the single deadline computed from the last edge;
/// the earlier edges leave no trace and no other line is touched.
pub proof fn lemma_coalescing(m: Map<u8, u64>, pin: u8, instants: Seq<u64>, debounce: u64)
    requires
        instants.len() > 0,
    ensures
        record_all(m, pin, instants, debounce) == record_spec(m, pin, instants.last(), debounce),
    decreases instants.len(),
{
    let prefix = instants.drop_last();
    if instants.len() > 1 {
        lemma_coalescing(m, pin, prefix, debounce);
        assert(record_all(m, pin, instants, debounce) == record_spec(
            record_spec(m, pin, prefix.last(), debounce),
            pin,
            instants.last(),
            debounce,
        ));
        assert(record_spec(
            record_spec(m, pin, prefix.last(), debounce),
            pin,
            instants.last(),
            debounce,
        ) =~= record_spec(m, pin, instants.last(), debounce));
    } else {
        assert(prefix.len() == 0);
        assert(record_all(m, pin, prefix, debounce) == m);
    }
}

/// While a line's window is still open — the scan tick lies strictly
/// before its deadline — a scan neither emits that line nor disturbs its
/// deadline, so a later edge of the same burst still overwrites it.
pub proof fn lemma_open_window_survives_scan(m: Map<u8, u64>, pin: u8, now: u64)
    requires
        m.contains_key(pin),
        now < m[pin],
    ensures
        !expired_set(m, now).contains(pin),
        still_pending(m, now).contains_key(pin),
        still_pending(m, now)[pin] == m[pin],
{
}

/// Isolation: recording an edge on one line never changes another line's
/// deadline, nor whether a scan emits that other line.
pub proof fn lemma_isolation(
    m: Map<u8, u64>,
    pin: u8,
    other: u8,
    instant: u64,
    debounce: u64,
    now: u64,
)
    requires
        pin != other,
    ensures
        record_spec(m, pin, instant, debounce).contains_key(other) == m.contains_key(other),
        m.contains_key(other) ==> record_spec(m, pin, instant, debounce)[other] == m[other],
        expired_set(record_spec(m, pin, instant, debounce), now).contains(other) == expired_set(
            m,
            now,
        ).contains(other),
{
}

/// Minimal latency, lower bound: a scan emits a line only once the scan
/// tick has reached the deadline of its last recorded edge, so never
/// before `instant + debounce`. The matching upper bound is the contract
/// of `IO::next_wake`: the next wake never lies beyond a pending deadline.
pub proof fn lemma_minimal_latency(
    m: Map<u8, u64>,
    pin: u8,
    instant: u64,
    debounce: u64,
    now: u64,
)
    ensures
        expired_set(record_spec(m, pin, instant, debounce), now).contains(pin) ==> now
            >= deadline_for(instant, debounce),
        instant + debounce <= u64::MAX ==> deadline_for(instant, debounce) == instant + debounce,
{
}

/// The debounce scheduler's state: the deadline tracker, the fixed
/// debounce window, the channel of raw edges feeding it, and, once a
/// listener is attached, the channel of debounced events leaving it.
pub struct IO {
    pub tracker: DeadlineTracker,
    pub window: u64,
    pub edge_tx: crossbeam_channel::Sender<(u8, u64)>,
    pub edge_rx: crossbeam_channel::Receiver<(u8, u64)>,
    pub event_tx: Option<crossbeam_channel::Sender<(u8, bool)>>,
}

impl IO {
    /// The pending deadline of each line.
    pub open spec fn deadlines(&self) -> Map<u8, u64> {
        self.tracker.view()
    }

    /// The fixed debounce duration, in ticks.
    pub open spec fn debounce(&self) -> u64 {
        self.window
    }

    /// Well-formed: the tracker holds at most one entry per line.
    pub open spec fn wf(&self) -> bool {
        self.tracker.wf()
    }

    /// A scheduler with the given debounce window, no pending deadline,
    /// and a fresh raw-edge channel.
    pub fn create(debounce: u64) -> (io: IO)
        ensures
            io.wf(),
            io.deadlines() == Map::<u8, u64>::empty(),
            io.debounce() == debounce,
    {
        let (tx, rx) = chan_new();
        IO {
            tracker: DeadlineTracker::new(),
            window: debounce,
            edge_tx: tx,
            edge_rx: rx,
            event_tx: None,
        }
    }

    /// A sending half of the raw-edge channel, for an edge source to hand
    /// `(pin, tick)` pairs to the scheduler.
    pub fn edge_sender(&self) -> crossbeam_channel::Sender<(u8, u64)> {
        chan_clone(&self.edge_tx)
    }

    /// Records one raw edge: opens or extends the window for `pin` so it
    /// closes one debounce duration after `instant`. Any earlier deadline
    /// for the line is overwritten — never queued beside — and every
    /// other line is untouched.
    pub fn record_edge(&mut self, pin: u8, instant: u64)
        requires
            old(self).wf(),
        ensures
            final(self).wf(),
            final(self).debounce() == old(self).debounce(),
            final(self).deadlines() == record_spec(
                old(self).deadlines(),
                pin,
                instant,
                old(self).debounce(),
            ),
    {
        let deadline: u64 = if instant > u64::MAX - self.window {
            u64::MAX
        } else {
            instant + self.window
        };
        self.tracker.set(pin, deadline);
    }

    /// The pending deadline for `pin`, if its window is open.
    pub fn deadline_of(&self, pin: u8) -> (r: Option<u64>)
        requires
            self.wf(),
        ensures
            match r {
                Some(d) => self.deadlines().contains_key(pin) && self.deadlines()[pin] == d,
                None => !self.deadlines().contains_key(pin),
            },
    {
        self.tracker.get(pin)
    }

    /// One scan at `now`: removes every line whose window has closed and
    /// returns those lines, each exactly once, for the caller to sample
    /// and report. Lines still inside their windows keep their deadlines.
    pub fn collect_expired(&mut self, now: u64) -> (expired: Vec<u8>)
        requires
            old(self).wf(),
        ensures
            final(self).wf(),
            final(self).debounce() == old(self).debounce(),
            final(self).deadlines() == still_pending(old(self).deadlines(), now),
            forall|p: u8|
                #[trigger] expired@.contains(p) <==> expired_set(
                    old(self).deadlines(),
                    now,
                ).contains(p),
            forall|a: int, b: int|
                0 <= a < b < expired@.len() ==> expired@[a] != expired@[b],
    {
        self.tracker.remove_expired(now)
    }

    /// Drains the raw edges queued at the moment of the call and records
    /// each one. What arrives is up to the edge sources, so only this
    /// holds of every outcome: the window is unchanged and no pending
    /// deadline disappears — edges only open or extend windows.
    pub fn absorb_pending(&mut self)
        requires
            old(self).wf(),
        ensures
            final(self).wf(),
            final(self).debounce() == old(self).debounce(),
            forall|p: u8|
                old(self).deadlines().contains_key(p) ==> final(self).deadlines().contains_key(p),
    {
        let budget = chan_len(&self.edge_rx);
        let ghost base = *self;
        let mut i: usize = 0;
        while i < budget
            invariant
                self.wf(),
                self.debounce() == base.debounce(),
                i <= budget,
                forall|p: u8|
                    base.deadlines().contains_key(p) ==> self.deadlines().contains_key(p),
            decreases budget - i,
        {
            match chan_try_recv(&self.edge_rx) {
                Some(edge) => {
                    self.record_edge(edge.0, edge.1);
                },
                None => {
                    break ;
                },
            }
            i += 1;
        }
    }

    /// The tick to sleep until: the earliest pending deadline, or one
    /// debounce duration past `now` when nothing is pending, so an idle
    /// scheduler polls in bounded increments rather than blocking forever.
    /// The wake never lies beyond a pending deadline, so no line is
    /// reported later than the loop's polling granularity past its bound.
    pub fn next_wake(&self, now: u64) -> (wake: u64)
        requires
            self.wf(),
        ensures
            (forall|p: u8| !(#[trigger] self.deadlines().contains_key(p))) ==> wake
                == deadline_for(now, self.debounce()),
            (exists|p: u8| #[trigger] self.deadlines().contains_key(p)) ==> {
                &&& exists|p: u8|
                    #[trigger] self.deadlines().contains_key(p) && self.deadlines()[p] == wake
                &&& forall|p: u8|
                    #[trigger] self.deadlines().contains_key(p) ==> wake <= self.deadlines()[p]
            },
    {
        match self.tracker.earliest() {
            Some(w) => {
                proof {
                    let p0 = choose|p: u8|
                        self.tracker.view().contains_key(p) && self.tracker.view()[p] == w;
                    assert(self.deadlines().contains_key(p0));
                }
                w
            },
            None => {
                if now > u64::MAX - self.window {
                    u64::MAX
                } else {
                    now + self.window
                }
            },
        }
    }

    /// Attaches the listener: opens the debounced-event channel, keeps its
    /// sending half for `emit_events`, and returns the receiving half to
    /// the application. The tracker and the window are untouched.
    pub fn open_events(&mut self) -> (rx: crossbeam_channel::Receiver<(u8, bool)>)
        requires
            old(self).wf(),
        ensures
            final(self).wf(),
            final(self).debounce() == old(self).debounce(),
            final(self).deadlines() == old(self).deadlines(),
            final(self).event_tx is Some,
    {
        let (tx, rx) = chan_new();
        self.event_tx = Some(tx);
        rx
    }

    /// Hands each `(pin, active)` event to the debounced-event channel, in
    /// order, stopping at the first failed send. With no listener ever
    /// attached nothing is handed over at all. Once one is, delivery
    /// depends on a receiver existing, so only the count is bounded: all
    /// events were handed over exactly when `sent` equals their number;
    /// anything less means the channel is closed — fatal for the owning
    /// loop, which should stop rather than retry.
    pub fn emit_events(&self, events: &Vec<(u8, bool)>) -> (sent: usize)
        ensures
            sent <= events@.len(),
            self.event_tx is None ==> sent == 0,
    {
        let n = events.len();
        let mut i: usize = 0;
        while i < n
            invariant
                n == events@.len(),
                i <= n,
                i > 0 ==> self.event_tx is Some,
            decreases n - i,
        {
            let ok = match &self.event_tx {
                Some(tx) => chan_send(tx, events[i]),
                None => false,
            };
            if !ok {
                return i;
            }
            i += 1;
        }
        n
    }
}

/// The bounded sleep before the next wake: the ticks from `now` up to
/// `wake`, or nothing when the wake tick has already passed.
pub fn sleep_duration(now: u64, wake: u64) -> (d: u64)
    ensures
        now < wake ==> d == wake - now,
        now >= wake ==> d == 0,
{
    if now < wake {
        wake - now
    } else {
        0
    }
}

} // verus!
