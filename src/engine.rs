use vstd::prelude::*;
use crate::config::{unique_ids, FPGAConfig, FPGAElement};
use crate::error::FabricError;
use crate::fabric::{build_error, FPGAFabric};
use crate::timing::TimingModel;
use crate::wire::Wire;
use crate::dff::{wire_high, DFF};
use crate::bram::BlockRAM;
use crate::fabric::{bram_drive, bram_reads, dff_drive, dff_reads, first_index};

verus! {

/// Events are drained from the queue before each clock edge, at most this
/// many per cycle; the rest wait for the next cycle. This bounds the work of
/// a cycle even when the netlist holds a combinational loop.
pub const MAX_EVENTS_PER_CYCLE: usize = 1048576;

/// A pending change of a wire's value at a point of virtual time.
#[derive(Clone, Copy, Debug, PartialEq, Eq, Structural)]
pub struct SimulationEvent {
    pub time: u64,
    pub wire_index: usize,
    pub new_value: u64,
}

/// What a run returns: the cycles run, and for each output, in declaration
/// order, its name and the value sampled after each cycle.
pub struct SimulationResult {
    pub cycles: usize,
    pub outputs: Vec<(String, Vec<u64>)>,
}

/// Where an event for time `t` goes: after every queued event that is not
/// later than `t`, counting from the back.
pub open spec fn insert_point(q: Seq<SimulationEvent>, t: u64) -> int
    decreases q.len(),
{
    if q.len() == 0 {
        0
    } else if q.last().time <= t {
        q.len() as int
    } else {
        insert_point(q.drop_last(), t)
    }
}

/// The queue once `e` has been submitted to it.
pub open spec fn scheduled(q: Seq<SimulationEvent>, e: SimulationEvent) -> Seq<SimulationEvent> {
    q.insert(insert_point(q, e.time), e)
}

/// Events come in non-decreasing order of time.
pub open spec fn time_ordered(q: Seq<SimulationEvent>) -> bool {
    forall|i: int, j: int| 0 <= i < j < q.len() ==> q[i].time <= q[j].time
}

pub proof fn lemma_insert_point(q: Seq<SimulationEvent>, t: u64)
    requires
        time_ordered(q),
    ensures
        0 <= insert_point(q, t) <= q.len(),
        forall|j: int| 0 <= j < insert_point(q, t) ==> q[j].time <= t,
        forall|j: int| insert_point(q, t) <= j < q.len() ==> q[j].time > t,
    decreases q.len(),
{
    if q.len() > 0 {
        if q.last().time > t {
            let p = q.drop_last();
            assert(time_ordered(p));
            lemma_insert_point(p, t);
            assert forall|j: int| insert_point(q, t) <= j < q.len() implies q[j].time > t by {
                if j < q.len() - 1 {
                    assert(q[j] == p[j]);
                }
            }
            assert forall|j: int| 0 <= j < insert_point(q, t) implies q[j].time <= t by {
                assert(q[j] == p[j]);
            }
        }
    }
}

/// Submitting an event keeps the queue in order of time.
pub proof fn lemma_scheduled_ordered(q: Seq<SimulationEvent>, e: SimulationEvent)
    requires
        time_ordered(q),
    ensures
        time_ordered(scheduled(q, e)),
        scheduled(q, e).len() == q.len() + 1,
{
    lemma_insert_point(q, e.time);
    let p = insert_point(q, e.time);
    let r = scheduled(q, e);
    assert forall|i: int, j: int| 0 <= i < j < r.len() implies r[i].time <= r[j].time by {
        if i < p && j < p {
        } else if i < p && j == p {
        } else if i < p {
            assert(r[j] == q[j - 1]);
        } else if i == p {
            assert(r[j] == q[j - 1]);
        } else {
            assert(r[i] == q[i - 1]);
            assert(r[j] == q[j - 1]);
        }
    }
}

/// Events submitted for the same time leave the queue in the order they
/// were submitted: the first lands right before the second.
pub proof fn lemma_same_time_in_submission_order(
    q: Seq<SimulationEvent>,
    first: SimulationEvent,
    second: SimulationEvent,
)
    requires
        time_ordered(q),
        first.time == second.time,
    ensures
        ({
            let p = insert_point(q, first.time);
            let r = scheduled(scheduled(q, first), second);
            &&& r[p] == first
            &&& r[p + 1] == second
            &&& forall|j: int| 0 <= j < p ==> r[j] == q[j]
            &&& forall|j: int| p + 2 <= j < r.len() ==> r[j] == q[j - 2]
        }),
{
    let t = first.time;
    lemma_insert_point(q, t);
    let p = insert_point(q, t);
    let q1 = scheduled(q, first);
    lemma_scheduled_ordered(q, first);
    lemma_insert_point(q1, t);
    let p1 = insert_point(q1, t);
    assert(q1[p] == first);
    if p1 <= p {
        assert(q1[p].time > t);
    }
    if p1 > p + 1 {
        assert(q1[p + 1] == q[p]);
        assert(q[p].time > t);
    }
    assert(p1 == p + 1);
}

/// The event that element `e` of `fab` queues when it is re-evaluated
/// against the committed wires `wires` at time `now`: a table its bit after
/// the table delay, a flip-flop or memory what it drives after the
/// clock-to-output or read delay.
pub open spec fn element_event(
    e: FPGAElement,
    fab: FPGAFabric,
    wires: Seq<Wire>,
    now: u64,
    tm: TimingModel,
) -> Option<SimulationEvent> {
    match e {
        FPGAElement::LUT(id) => match first_index(fab.lut_ids(), id) {
            Some(k) => Some(
                SimulationEvent {
                    time: now.saturating_add(tm.lut_delay),
                    wire_index: fab.luts@[k].output_wire.unwrap(),
                    new_value: fab.luts@[k].output_for(wires),
                },
            ),
            None => None,
        },
        FPGAElement::DFF(id) => match first_index(fab.dff_ids(), id) {
            Some(k) => match dff_drive(fab.dffs@[k], wires) {
                Some(d) => Some(
                    SimulationEvent {
                        time: now.saturating_add(tm.dff_clock_to_q),
                        wire_index: d.0,
                        new_value: d.1,
                    },
                ),
                None => None,
            },
            None => None,
        },
        FPGAElement::BRAM(id) => match first_index(fab.bram_ids(), id) {
            Some(k) => match bram_drive(fab.brams@[k], wires) {
                Some(d) => Some(
                    SimulationEvent {
                        time: now.saturating_add(tm.bram_read_delay),
                        wire_index: d.0,
                        new_value: d.1,
                    },
                ),
                None => None,
            },
            None => None,
        },
        FPGAElement::Output(_) => None,
    }
}

/// The events that the elements `es` queue, in order.
pub open spec fn element_events(
    es: Seq<FPGAElement>,
    fab: FPGAFabric,
    wires: Seq<Wire>,
    now: u64,
    tm: TimingModel,
) -> Seq<SimulationEvent>
    decreases es.len(),
{
    if es.len() == 0 {
        Seq::empty()
    } else {
        let r = element_events(es.drop_last(), fab, wires, now, tm);
        match element_event(es.last(), fab, wires, now, tm) {
            Some(ev) => r.push(ev),
            None => r,
        }
    }
}

proof fn lemma_element_events_step(
    es: Seq<FPGAElement>,
    k: int,
    fab: FPGAFabric,
    wires: Seq<Wire>,
    now: u64,
    tm: TimingModel,
)
    requires
        0 <= k < es.len(),
    ensures
        element_events(es.take(k + 1), fab, wires, now, tm) == match element_event(
            es[k],
            fab,
            wires,
            now,
            tm,
        ) {
            Some(ev) => element_events(es.take(k), fab, wires, now, tm).push(ev),
            None => element_events(es.take(k), fab, wires, now, tm),
        },
{
    assert(es.take(k + 1).drop_last() == es.take(k));
    assert(es.take(k + 1).last() == es[k]);
}

/// Evaluating a flip-flop a second time against the same wires drives what
/// the first evaluation drove.
pub proof fn lemma_drive_settled(d: DFF, wires: Seq<Wire>)
    ensures
        dff_drive(d.next(wires), wires) == dff_drive(d, wires),
{
    crate::dff::lemma_latch_edge_only(d, wires, wires);
}

/// The events queued, in order, into `q`.
pub open spec fn schedule_all(q: Seq<SimulationEvent>, added: Seq<SimulationEvent>) -> Seq<
    SimulationEvent,
>
    decreases added.len(),
{
    if added.len() == 0 {
        q
    } else {
        scheduled(schedule_all(q, added.drop_last()), added.last())
    }
}

/// The events that send `value` on from wire `w` to each of its
/// destinations, one wire delay after `now`.
pub open spec fn forwards(w: Wire, now: u64, wire_delay: u64, value: u64) -> Seq<SimulationEvent> {
    Seq::new(
        w.destinations@.len(),
        |j: int|
            SimulationEvent {
                time: now.saturating_add(wire_delay),
                wire_index: w.destinations@[j],
                new_value: value,
            },
    )
}

/// `post` is `pre` after one edge of the periodic clock at the current time:
/// the clock wire is lowered, then raised, and every flip-flop has sampled
/// it at both levels.
pub open spec fn clock_edge(pre: SimulationEngine, post: SimulationEngine) -> bool {
    &&& post.keeps(&pre)
    &&& post.current_time == pre.current_time
    &&& post.fabric.values() == pre.fabric.values().update(pre.fabric.clock_wire as int, 1)
    &&& post.fabric.dffs@.len() == pre.fabric.dffs@.len()
    &&& post.fabric.brams@.len() == pre.fabric.brams@.len()
    &&& exists|low: Seq<Wire>, high: Seq<Wire>, mids: Seq<BlockRAM>|
        #[trigger] edge_step(pre, post, low, high, mids)
}

/// The events that what each drive of `drives` asks for become at `time`,
/// in order; a drive of nothing adds none.
pub open spec fn drive_events(drives: Seq<Option<(usize, u64)>>, time: u64) -> Seq<SimulationEvent>
    decreases drives.len(),
{
    if drives.len() == 0 {
        Seq::empty()
    } else {
        let r = drive_events(drives.drop_last(), time);
        match drives.last() {
            Some(d) => r.push(SimulationEvent { time, wire_index: d.0, new_value: d.1 }),
            None => r,
        }
    }
}

/// One periodic clock edge from `pre` to `post`, with the clock low in
/// `low`, high in `high`, and each memory `mids[k]` after its low sample:
/// every flip-flop and memory samples the clock low, then high; then what
/// each flip-flop drives is queued at the clock-to-output delay, and then
/// what each memory drives at the read delay, in element order.
pub open spec fn edge_step(
    pre: SimulationEngine,
    post: SimulationEngine,
    low: Seq<Wire>,
    high: Seq<Wire>,
    mids: Seq<BlockRAM>,
) -> bool {
    let nd = pre.fabric.dffs@.len();
    let nb = pre.fabric.brams@.len();
    let now = pre.current_time;
    &&& clock_at(low, pre.fabric.wires@, pre.fabric.clock_wire, 0)
    &&& clock_at(high, pre.fabric.wires@, pre.fabric.clock_wire, 1)
    &&& forall|k: int|
        0 <= k < nd ==> #[trigger] post.fabric.dffs@[k] == pre.fabric.dffs@[k].next(low).next(high)
    &&& mids.len() == nb
    &&& forall|k: int|
        0 <= k < nb ==> sampled(pre.fabric.brams@[k], #[trigger] mids[k], low) && sampled(
            mids[k],
            post.fabric.brams@[k],
            high,
        )
    &&& post.event_queue@ == schedule_all(
        pre.event_queue@,
        drive_events(
            Seq::new(nd, |k: int| dff_drive(pre.fabric.dffs@[k].next(low), high)),
            now.saturating_add(pre.timing_model.dff_clock_to_q),
        ) + drive_events(
            Seq::new(nb, |k: int| bram_drive(mids[k], high)),
            now.saturating_add(pre.timing_model.bram_read_delay),
        ),
    )
}

proof fn lemma_drive_events_step(d: Seq<Option<(usize, u64)>>, k: int, t: u64)
    requires
        0 <= k < d.len(),
    ensures
        drive_events(d.take(k + 1), t) == match d[k] {
            Some(x) => drive_events(d.take(k), t).push(
                SimulationEvent { time: t, wire_index: x.0, new_value: x.1 },
            ),
            None => drive_events(d.take(k), t),
        },
{
    assert(d.take(k + 1).drop_last() == d.take(k));
    assert(d.take(k + 1).last() == d[k]);
}

/// `post` is memory `pre` after one evaluation against `wires`.
pub open spec fn sampled(pre: BlockRAM, post: BlockRAM, wires: Seq<Wire>) -> bool {
    &&& post.wf()
    &&& pre.same_setup(&post)
    &&& post.memory@ == pre.next_memory(wires)
    &&& post.last_clock_state == pre.next_clock_state(wires)
}

/// `post` is `pre` one cycle later: events were drained until none was due
/// before the next edge (or the cycle's limit of applied events was reached),
/// the time moved one clock period on, and the periodic clock had one edge.
#[verifier::opaque]
pub open spec fn one_cycle(pre: SimulationEngine, post: SimulationEngine) -> bool {
    exists|drained: SimulationEngine, applied: int|
        #[trigger] drained_from(pre, drained, applied) && clock_edge(drained, post)
}

/// `post` is `pre` after its first queued event was taken off the queue and
/// applied, at the later of the current time and the event's time.
pub open spec fn event_applied(pre: SimulationEngine, post: SimulationEngine) -> bool {
    &&& pre.event_queue@.len() > 0
    &&& exists|taken: SimulationEngine|
        {
            &&& #[trigger] taken.event_step(pre.event_queue@[0], post)
            &&& taken.fabric == pre.fabric
            &&& taken.timing_model == pre.timing_model
            &&& taken.event_queue@ == pre.event_queue@.subrange(1, pre.event_queue@.len() as int)
            &&& taken.current_time == if pre.event_queue@[0].time > pre.current_time {
                pre.event_queue@[0].time
            } else {
                pre.current_time
            }
        }
}

/// `drained` is `pre` after `applied` events were taken in queue order, each
/// due before the next edge, and applied one by one, with the time then
/// moved to that edge; unless the cycle's limit was reached, no event left
/// is due before the edge.
pub open spec fn drained_from(pre: SimulationEngine, drained: SimulationEngine, applied: int) -> bool {
    let edge = time_after(pre.current_time, pre.timing_model.clock_period, 1);
    &&& drained.keeps(&pre)
    &&& drained.current_time == edge
    &&& 0 <= applied <= MAX_EVENTS_PER_CYCLE
    &&& applied < MAX_EVENTS_PER_CYCLE ==> forall|i: int|
        0 <= i < drained.event_queue@.len() ==> #[trigger] drained.event_queue@[i].time
            >= drained.current_time
    &&& exists|trace: Seq<SimulationEngine>|
        {
            &&& #[trigger] trace.len() == applied + 1
            &&& trace[0] == pre
            &&& forall|i: int|
                0 <= i < applied ==> event_applied(#[trigger] trace[i], trace[i + 1])
                    && trace[i].event_queue@[0].time < edge
            &&& trace[applied].fabric == drained.fabric
            &&& trace[applied].event_queue@ == drained.event_queue@
            &&& trace[applied].timing_model == drained.timing_model
        }
}

/// `clocked` holds the values of `wires` but for the clock wire `c`, which
/// holds `level`.
pub open spec fn clock_at(clocked: Seq<Wire>, wires: Seq<Wire>, c: usize, level: u64) -> bool {
    &&& clocked.len() == wires.len()
    &&& forall|i: int|
        0 <= i < wires.len() ==> (#[trigger] clocked[i]).value == if i == c {
            level
        } else {
            wires[i].value
        }
}

/// A clock advance, which lowers and then raises the periodic clock, makes
/// a flip-flop on that clock take its input's level, whatever it held and
/// whatever clock level it saw before.
pub proof fn lemma_clock_advance_latches(d: DFF, wires: Seq<Wire>, low: Seq<Wire>, high: Seq<Wire>, c: usize)
    requires
        c < wires.len(),
        d.clock_wire == Some(c),
        d.input_wire matches Some(i) && i != c,
        clock_at(low, wires, c, 0),
        clock_at(high, wires, c, 1),
    ensures
        d.next(low).next(high).state == wire_high(wires, d.input_wire.unwrap()),
{
    let i = d.input_wire.unwrap();
    if i < wires.len() {
        assert(high[i as int].value == wires[i as int].value);
    }
    assert(low[c as int].value == 0);
    assert(high[c as int].value == 1);
}

/// The virtual time after `k` clock periods from `t0`, held at the largest
/// representable time.
pub open spec fn time_after(t0: u64, period: u64, k: int) -> int {
    if t0 + k * period <= u64::MAX {
        t0 + k * period
    } else {
        u64::MAX as int
    }
}

/// A fabric driven by a time-ordered event queue and a periodic clock.
pub struct SimulationEngine {
    pub fabric: FPGAFabric,
    pub timing_model: TimingModel,
    pub event_queue: Vec<SimulationEvent>,
    pub current_time: u64,
}

impl SimulationEngine {
    pub open spec fn wf(&self) -> bool {
        &&& self.fabric.wf()
        &&& time_ordered(self.event_queue@)
    }

    /// An engine at time 0 with nothing queued, over the fabric built from
    /// `config`; a faulty netlist is reported.
    pub fn new(config: FPGAConfig, timing_model: TimingModel) -> (r: Result<
        SimulationEngine,
        FabricError,
    >)
        requires
            1 + config.inputs@.len() + config.outputs@.len() + config.luts@.len()
                + config.dffs@.len() + 5 * config.brams@.len() < usize::MAX,
        ensures
            build_error(config) matches Some(e) ==> r == Err::<SimulationEngine, FabricError>(e),
            build_error(config) is None ==> r is Ok,
            r matches Ok(e) ==> {
                &&& e.wf()
                &&& e.fabric.built_from(config)
                &&& e.timing_model == timing_model
                &&& e.event_queue@.len() == 0
                &&& e.current_time == 0
            },
    {
        match FPGAFabric::from_config(config) {
            Ok(fabric) => Ok(
                SimulationEngine { fabric, timing_model, event_queue: Vec::new(), current_time: 0 },
            ),
            Err(e) => Err(e),
        }
    }

    /// Queues a change of the named input at the current time; an unknown
    /// name changes nothing.
    pub fn set_input(&mut self, input_name: &str, value: u64)
        requires
            old(self).wf(),
        ensures
            final(self).wf(),
            final(self).fabric == old(self).fabric,
            final(self).current_time == old(self).current_time,
            final(self).timing_model == old(self).timing_model,
            final(self).event_queue@ == match old(self).fabric.input_wire_of(input_name@) {
                Some(w) => scheduled(
                    old(self).event_queue@,
                    SimulationEvent {
                        time: old(self).current_time,
                        wire_index: w,
                        new_value: value,
                    },
                ),
                None => old(self).event_queue@,
            },
    {
        let wire_index = self.fabric.get_input_wire_index(input_name);
        let now = self.current_time;
        self.schedule_event(now, wire_index, value);
    }

    /// Submits an event for `time` on a wire; none for no wire.
    pub fn schedule_event(&mut self, time: u64, wire_index: Option<usize>, new_value: u64)
        requires
            old(self).wf(),
        ensures
            final(self).wf(),
            final(self).fabric == old(self).fabric,
            final(self).current_time == old(self).current_time,
            final(self).timing_model == old(self).timing_model,
            final(self).event_queue@ == match wire_index {
                Some(w) => scheduled(
                    old(self).event_queue@,
                    SimulationEvent { time, wire_index: w, new_value },
                ),
                None => old(self).event_queue@,
            },
    {
        if let Some(wire_index) = wire_index {
            let event = SimulationEvent { time, wire_index, new_value };
            let mut pos = self.event_queue.len();
            assert(self.event_queue@.take(pos as int) == self.event_queue@);
            while pos > 0 && self.event_queue[pos - 1].time > time
                invariant
                    pos <= self.event_queue@.len(),
                    insert_point(self.event_queue@, time) == insert_point(
                        self.event_queue@.take(pos as int),
                        time,
                    ),
                decreases pos,
            {
                proof {
                    assert(self.event_queue@.take(pos as int).drop_last() == self.event_queue@.take(
                        pos - 1,
                    ));
                }
                pos = pos - 1;
            }
            proof {
                if pos > 0 {
                    assert(self.event_queue@.take(pos as int).last() == self.event_queue@[pos - 1]);
                }
                lemma_scheduled_ordered(self.event_queue@, event);
            }
            self.event_queue.insert(pos, event);
        }
    }
}

impl SimulationEngine {
    /// Everything a step of the run keeps: the timing, the current time, and
    /// the fabric's names and tables.
    /// `post` is `self` after `event` was applied at the current time: the
    /// wire holds the event's value; every flip-flop and memory reading the
    /// wire has been evaluated once against the new values and every other
    /// one is as it was; and the events queued are, in order, the value sent
    /// on to each destination one wire delay later (when it changed the
    /// wire), then what each element downstream of the wire queues.
    pub open spec fn event_step(&self, event: SimulationEvent, post: SimulationEngine) -> bool {
        let w = event.wire_index;
        let now = self.current_time;
        let changed = w < self.fabric.wires@.len() && self.fabric.wires@[w as int].value != event.new_value;
        let fwd = if changed {
            forwards(self.fabric.wires@[w as int], now, self.timing_model.wire_delay, event.new_value)
        } else {
            Seq::empty()
        };
        &&& post.keeps(self)
        &&& post.current_time == now
        &&& post.fabric.values() == if w < self.fabric.wires@.len() {
            self.fabric.values().update(w as int, event.new_value)
        } else {
            self.fabric.values()
        }
        &&& post.fabric.dffs@.len() == self.fabric.dffs@.len()
        &&& forall|i: int|
            0 <= i < self.fabric.dffs@.len() ==> #[trigger] post.fabric.dffs@[i] == if dff_reads(
                self.fabric.dffs@[i],
                w,
            ) {
                self.fabric.dffs@[i].next(post.fabric.wires@)
            } else {
                self.fabric.dffs@[i]
            }
        &&& post.fabric.brams@.len() == self.fabric.brams@.len()
        &&& forall|i: int|
            0 <= i < self.fabric.brams@.len() ==> if bram_reads(self.fabric.brams@[i], w) {
                sampled(self.fabric.brams@[i], #[trigger] post.fabric.brams@[i], post.fabric.wires@)
            } else {
                post.fabric.brams@[i] == self.fabric.brams@[i]
            }
        &&& post.event_queue@ == schedule_all(
            self.event_queue@,
            fwd + element_events(
                self.fabric.affected(w),
                self.fabric,
                post.fabric.wires@,
                now,
                self.timing_model,
            ),
        )
    }

    pub open spec fn keeps(&self, other: &SimulationEngine) -> bool {
        &&& self.timing_model == other.timing_model
        &&& self.fabric.inputs == other.fabric.inputs
        &&& self.fabric.outputs == other.fabric.outputs
        &&& self.fabric.luts == other.fabric.luts
        &&& self.fabric.clock_wire == other.fabric.clock_wire
        &&& self.fabric.wires@.len() == other.fabric.wires@.len()
    }

    /// Applies one event at the current time: commits the value, sends a
    /// changed value on to the wire's destinations after the wire delay, and
    /// re-evaluates every element that reads the wire, queuing what each
    /// drives after its delay.
    fn process_event(&mut self, event: SimulationEvent)
        requires
            old(self).wf(),
        ensures
            final(self).wf(),
            old(self).event_step(event, *final(self)),
    {
        let w = event.wire_index;
        let now = self.current_time;
        let previous = self.fabric.get_wire_value(w);
        self.fabric.set_wire_value(w, event.new_value);
        let ghost committed = self.fabric.values();
        let ghost start = *self;
        let ghost q0 = self.event_queue@;
        let ghost mut added: Seq<SimulationEvent> = Seq::empty();
        let ghost changed = w < old(self).fabric.wires@.len() && previous != event.new_value;
        let ghost fwd = if changed {
            forwards(old(self).fabric.wires@[w as int], now, self.timing_model.wire_delay, event.new_value)
        } else {
            Seq::empty()
        };
        if w < self.fabric.wires.len() && previous != event.new_value {
            let at = now.saturating_add(self.timing_model.wire_delay);
            let m = self.fabric.wires[w].destinations.len();
            let mut j: usize = 0;
            while j < m
                invariant
                    self.wf(),
                    self.fabric == start.fabric,
                    self.timing_model == start.timing_model,
                    self.current_time == now,
                    w < self.fabric.wires@.len(),
                    m == self.fabric.wires@[w as int].destinations@.len(),
                    self.fabric.wires@[w as int].destinations@ == old(self).fabric.wires@[w as int].destinations@,
                    changed,
                    at == now.saturating_add(start.timing_model.wire_delay),
                    fwd == forwards(old(self).fabric.wires@[w as int], now, start.timing_model.wire_delay, event.new_value),
                    j <= m,
                    added == fwd.take(j as int),
                    self.event_queue@ == schedule_all(q0, added),
                decreases m - j,
            {
                let d = self.fabric.wires[w].destinations[j];
                self.schedule_event(at, Some(d), event.new_value);
                proof {
                    let e = SimulationEvent { time: at, wire_index: d, new_value: event.new_value };
                    assert(fwd[j as int] == e);
                    assert(fwd.take(j + 1) == fwd.take(j as int).push(e));
                    assert(added.push(e).drop_last() == added);
                    added = added.push(e);
                }
                j = j + 1;
            }
            proof {
                assert(fwd.take(m as int) == fwd);
            }
        }
        proof {
            assert(added == fwd);
        }
        let ghost wires_now = self.fabric.wires@;
        let ghost dffs0 = self.fabric.dffs@;
        let ghost brams0 = self.fabric.brams@;
        let affected = self.fabric.get_affected_elements(Some(w));
        let mut k: usize = 0;
        while k < affected.len()
            invariant
                self.wf(),
                self.keeps(&start),
                self.fabric.values() == committed,
                self.fabric.wires@ == wires_now,
                self.current_time == now,
                k <= affected@.len(),
                affected@ == start.fabric.affected(w),
                dffs0 == start.fabric.dffs@,
                brams0 == start.fabric.brams@,
                start.fabric.wf(),
                self.fabric.dffs@.len() == dffs0.len(),
                self.fabric.dff_ids() == start.fabric.dff_ids(),
                self.fabric.bram_ids() == start.fabric.bram_ids(),
                forall|i: int|
                    0 <= i < dffs0.len() ==> #[trigger] self.fabric.dffs@[i] == if dff_reads(dffs0[i], w)
                        && affected@.take(k as int).contains(FPGAElement::DFF(dffs0[i].id)) {
                        dffs0[i].next(wires_now)
                    } else {
                        dffs0[i]
                    },
                self.fabric.brams@.len() == brams0.len(),
                forall|i: int|
                    0 <= i < brams0.len() ==> if bram_reads(brams0[i], w)
                        && affected@.take(k as int).contains(FPGAElement::BRAM(brams0[i].id)) {
                        sampled(brams0[i], #[trigger] self.fabric.brams@[i], wires_now)
                    } else {
                        self.fabric.brams@[i] == brams0[i]
                    },
                added == fwd + element_events(
                    affected@.take(k as int),
                    old(self).fabric,
                    wires_now,
                    now,
                    start.timing_model,
                ),
                dffs0 == old(self).fabric.dffs@,
                brams0 == old(self).fabric.brams@,
                old(self).fabric.luts == start.fabric.luts,
                self.event_queue@ == schedule_all(q0, added),
            decreases affected@.len() - k,
        {
            let ghost before_q = added;
            let ghost before_dffs = self.fabric.dffs@;
            let ghost before_brams = self.fabric.brams@;
            let ghost mut hit: int = -1;
            let ghost mut bhit: int = -1;
            let ghost ev = element_event(affected@[k as int], old(self).fabric, wires_now, now, start.timing_model);
            proof {
                assert(affected@.take(k + 1) == affected@.take(k as int).push(affected@[k as int]));
                lemma_element_events_step(affected@, k as int, old(self).fabric, wires_now, now, start.timing_model);
                assert(old(self).fabric.lut_ids() == self.fabric.lut_ids());
            }
            match &affected[k] {
                FPGAElement::LUT(id) => {
                    if let Some(v) = self.fabric.evaluate_lut(*id) {
                        let o = self.fabric.get_lut_output_wire(*id);
                        let at = now.saturating_add(self.timing_model.lut_delay);
                        self.schedule_event(at, Some(o), v);
                        proof {
                            let e = SimulationEvent { time: at, wire_index: o, new_value: v };
                            assert(added.push(e).drop_last() == added);
                            assert(ev == Some(e));
                            added = added.push(e);
                        }
                    } else {
                        proof {
                            assert(ev is None);
                        }
                    }
                },
                FPGAElement::DFF(id) => {
                    proof {
                        start.fabric.lemma_affected_members(w, *id);
                        assert(affected@.contains(FPGAElement::DFF(*id)));
                        let kk = choose|kk: int| 0 <= kk < dffs0.len() && (#[trigger] dffs0[kk]).id == *id && dff_reads(dffs0[kk], w);
                        assert(self.fabric.dff_ids()[kk] == *id);
                        crate::fabric::lemma_first_index(self.fabric.dff_ids(), *id);
                    }
                    if let Some(i) = self.fabric.dff_index(*id) {
                        proof {
                            crate::fabric::lemma_first_index(self.fabric.dff_ids(), *id);
                            start.fabric.lemma_affected_members(w, *id);
                            assert(affected@.contains(FPGAElement::DFF(*id)));
                            let kk = choose|kk: int| 0 <= kk < dffs0.len() && (#[trigger] dffs0[kk]).id == *id && dff_reads(dffs0[kk], w);
                            assert(start.fabric.dff_ids()[kk] == *id);
                            assert(start.fabric.dff_ids()[i as int] == *id);
                            assert(kk == i);
                            crate::dff::lemma_latch_edge_only(dffs0[i as int], wires_now, wires_now);
                        }
                        proof {
                            hit = i as int;
                            assert(old(self).fabric.dff_ids() == start.fabric.dff_ids());
                            lemma_drive_settled(dffs0[i as int], wires_now);
                            assert(self.fabric.wires@ == wires_now);
                            assert(dff_drive(self.fabric.dffs@[i as int], wires_now) == dff_drive(dffs0[i as int], wires_now));
                        }
                        let drive = self.fabric.sample_dff(i);
                        proof {
                            assert(drive == dff_drive(dffs0[i as int], wires_now));
                        }
                        if let Some((o, v)) = drive {
                            let at = now.saturating_add(self.timing_model.dff_clock_to_q);
                            self.schedule_event(at, Some(o), v);
                            proof {
                                let e = SimulationEvent { time: at, wire_index: o, new_value: v };
                                assert(added.push(e).drop_last() == added);
                                assert(ev == Some(e));
                                added = added.push(e);
                            }
                        } else {
                            proof {
                                assert(ev is None);
                            }
                        }
                        proof {
                            assert(self.fabric.dff_ids() =~= start.fabric.dff_ids());
                        }
                    }
                },
                FPGAElement::BRAM(id) => {
                    proof {
                        start.fabric.lemma_affected_members(w, *id);
                        assert(affected@.contains(FPGAElement::BRAM(*id)));
                        let kk = choose|kk: int| 0 <= kk < brams0.len() && (#[trigger] brams0[kk]).id == *id && bram_reads(brams0[kk], w);
                        assert(self.fabric.bram_ids()[kk] == *id);
                        crate::fabric::lemma_first_index(self.fabric.bram_ids(), *id);
                    }
                    if let Some(i) = self.fabric.bram_index(*id) {
                        proof {
                            crate::fabric::lemma_first_index(self.fabric.bram_ids(), *id);
                            start.fabric.lemma_affected_members(w, *id);
                            assert(affected@.contains(FPGAElement::BRAM(*id)));
                            let kk = choose|kk: int| 0 <= kk < brams0.len() && (#[trigger] brams0[kk]).id == *id && bram_reads(brams0[kk], w);
                            assert(start.fabric.bram_ids()[kk] == *id);
                            assert(start.fabric.bram_ids()[i as int] == *id);
                            assert(kk == i);
                            bhit = i as int;
                            assert(old(self).fabric.bram_ids() == start.fabric.bram_ids());
                            if affected@.take(k as int).contains(FPGAElement::BRAM(*id)) {
                                let j = choose|j: int| 0 <= j < k && affected@.take(k as int)[j] == FPGAElement::BRAM(*id);
                                start.fabric.lemma_affected_bram_once(w, j, k as int);
                            }
                            assert(self.fabric.brams@[i as int] == brams0[i as int]);
                            assert(self.fabric.wires@ == wires_now);
                        }
                        let drive = self.fabric.sample_bram(i);
                        if let Some((o, v)) = drive {
                            let at = now.saturating_add(self.timing_model.bram_read_delay);
                            self.schedule_event(at, Some(o), v);
                            proof {
                                let e = SimulationEvent { time: at, wire_index: o, new_value: v };
                                assert(added.push(e).drop_last() == added);
                                assert(ev == Some(e));
                                added = added.push(e);
                            }
                        } else {
                            proof {
                                assert(ev is None);
                            }
                        }
                        proof {
                            assert(self.fabric.bram_ids() =~= start.fabric.bram_ids());
                        }
                    }
                },
                FPGAElement::Output(_) => {},
            }
            proof {
                if affected@[k as int] is Output {
                    assert(ev is None);
                }
                assert(added =~= fwd + element_events(
                    affected@.take(k + 1),
                    old(self).fabric,
                    wires_now,
                    now,
                    start.timing_model,
                ));
                assert(unique_ids(start.fabric.dff_ids()));
                assert(unique_ids(start.fabric.bram_ids()));
                if affected@[k as int] is BRAM {
                    assert(bhit >= 0);
                    assert(affected@[k as int] == FPGAElement::BRAM(brams0[bhit].id));
                } else {
                    assert(bhit < 0);
                    assert(self.fabric.brams@ == before_brams);
                }
                assert forall|i: int|
                    0 <= i < brams0.len() implies if bram_reads(brams0[i], w)
                        && affected@.take(k + 1).contains(FPGAElement::BRAM(brams0[i].id)) {
                        sampled(brams0[i], #[trigger] self.fabric.brams@[i], wires_now)
                    } else {
                        self.fabric.brams@[i] == brams0[i]
                    } by {
                    let t0 = affected@.take(k as int);
                    let t1 = affected@.take(k + 1);
                    let x = FPGAElement::BRAM(brams0[i].id);
                    assert(start.fabric.bram_ids()[i] == brams0[i].id);
                    if bhit >= 0 {
                        assert(start.fabric.bram_ids()[bhit] == brams0[bhit].id);
                    }
                    assert(t1 == t0.push(affected@[k as int]));
                    if i == bhit {
                        assert(t1[k as int] == x);
                        assert(t1.contains(x));
                        start.fabric.lemma_affected_members(w, brams0[i].id);
                    } else {
                        assert(self.fabric.brams@[i] == before_brams[i]);
                        if affected@[k as int] == x {
                            assert(bhit >= 0);
                            if bhit < i {
                                assert(start.fabric.bram_ids()[bhit] != start.fabric.bram_ids()[i]);
                            } else {
                                assert(start.fabric.bram_ids()[i] != start.fabric.bram_ids()[bhit]);
                            }
                        }
                        assert(affected@[k as int] != x);
                        if t1.contains(x) {
                            let j = choose|j: int| 0 <= j < t1.len() && t1[j] == x;
                            assert(t0[j] == x);
                        }
                        if t0.contains(x) {
                            let j = choose|j: int| 0 <= j < t0.len() && t0[j] == x;
                            assert(t1[j] == x);
                        }
                    }
                }
                if affected@[k as int] is DFF {
                    assert(hit >= 0);
                    assert(affected@[k as int] == FPGAElement::DFF(dffs0[hit].id));
                } else {
                    assert(hit < 0);
                }
                if hit >= 0 {
                    assert(affected@[k as int] == FPGAElement::DFF(dffs0[hit].id));
                    assert(dff_reads(dffs0[hit], w));
                    assert(self.fabric.dffs@[hit] == before_dffs[hit].next(wires_now));
                }
                assert forall|i: int|
                    0 <= i < dffs0.len() implies #[trigger] self.fabric.dffs@[i] == if dff_reads(dffs0[i], w)
                        && affected@.take(k + 1).contains(FPGAElement::DFF(dffs0[i].id)) {
                        dffs0[i].next(wires_now)
                    } else {
                        dffs0[i]
                    } by {
                    let t0 = affected@.take(k as int);
                    let t1 = affected@.take(k + 1);
                    let x = FPGAElement::DFF(dffs0[i].id);
                    assert(start.fabric.dff_ids()[i] == dffs0[i].id);
                    if hit >= 0 {
                        assert(start.fabric.dff_ids()[hit] == dffs0[hit].id);
                    }
                    assert(t1 == t0.push(affected@[k as int]));
                    assert(t1[k as int] == affected@[k as int]);
                    if i == hit {
                        crate::dff::lemma_latch_edge_only(dffs0[i], wires_now, wires_now);
                        assert(t1.contains(x));
                        if !dffs0[i].connected() {
                            assert(dffs0[i].next(wires_now) == dffs0[i]);
                        }
                        assert(dffs0[i].next(wires_now).next(wires_now) == dffs0[i].next(wires_now));
                    } else {
                        assert(self.fabric.dffs@[i] == before_dffs[i]);
                        if affected@[k as int] == x {
                            assert(hit >= 0);
                            assert(dffs0[hit].id == dffs0[i].id);
                            if hit < i {
                                assert(start.fabric.dff_ids()[hit] != start.fabric.dff_ids()[i]);
                            } else {
                                assert(start.fabric.dff_ids()[i] != start.fabric.dff_ids()[hit]);
                            }
                        }
                        assert(affected@[k as int] != x);
                        assert(t1.contains(x) == t0.contains(x));
                    }
                    if t1.contains(x) && !t0.contains(x) {
                        let j = choose|j: int| 0 <= j < t1.len() && t1[j] == x;
                        if j < k {
                            assert(t0[j] == x);
                        }
                    }
                    if t0.contains(x) {
                        let j = choose|j: int| 0 <= j < t0.len() && t0[j] == x;
                        assert(t1[j] == x);
                    }
                }
            }
            k = k + 1;
        }
        proof {
            assert(affected@.take(k as int) == affected@);
            assert forall|i: int| 0 <= i < dffs0.len() && dff_reads(dffs0[i], w) implies affected@.contains(
                FPGAElement::DFF(#[trigger] dffs0[i].id),
            ) by {
                start.fabric.lemma_affected_members(w, dffs0[i].id);
            }
            assert forall|i: int| 0 <= i < brams0.len() && bram_reads(brams0[i], w) implies affected@.contains(
                FPGAElement::BRAM(#[trigger] brams0[i].id),
            ) by {
                start.fabric.lemma_affected_members(w, brams0[i].id);
            }
            assert(old(self).fabric.affected(w) == start.fabric.affected(w));
            assert(wires_now == self.fabric.wires@);
        }
    }

    /// One periodic clock edge at the current time: the clock wire is
    /// lowered and every flip-flop and memory samples it, then it is raised
    /// and each samples it again; what each drives after the rising edge is
    /// queued after its clock-to-output or read delay.
    fn trigger_clock_events(&mut self)
        requires
            old(self).wf(),
        ensures
            final(self).wf(),
            clock_edge(*old(self), *final(self)),
    {
        let now = self.current_time;
        let clock = self.fabric.clock_wire;
        let ghost start = *self;
        self.fabric.set_wire_value(clock, 0);
        let ghost low = self.fabric.values();
        let ghost low_wires = self.fabric.wires@;
        proof {
            assert(clock_at(low_wires, start.fabric.wires@, clock, 0)) by {
                assert forall|i: int| 0 <= i < low_wires.len() implies (#[trigger] low_wires[i]).value
                    == if i == clock {
                    0
                } else {
                    start.fabric.wires@[i].value
                } by {
                    assert(low_wires[i].value == self.fabric.values()[i]);
                    assert(start.fabric.wires@[i].value == start.fabric.values()[i]);
                }
            }
        }
        let mut k: usize = 0;
        while k < self.fabric.dffs.len()
            invariant
                self.wf(),
                self.keeps(&start),
                self.fabric.values() == low,
                self.fabric.wires@ == low_wires,
                self.fabric.brams@ == start.fabric.brams@,
                self.event_queue@ == start.event_queue@,
                self.current_time == now,
                k <= self.fabric.dffs@.len(),
                self.fabric.dffs@.len() == start.fabric.dffs@.len(),
                forall|j: int| 0 <= j < k ==> #[trigger] self.fabric.dffs@[j] == start.fabric.dffs@[j].next(low_wires),
                forall|j: int| k <= j < self.fabric.dffs@.len() ==> #[trigger] self.fabric.dffs@[j] == start.fabric.dffs@[j],
            decreases self.fabric.dffs@.len() - k,
        {
            self.fabric.sample_dff(k);
            k = k + 1;
        }
        let ghost after_low = self.fabric.dffs@;
        let mut k: usize = 0;
        while k < self.fabric.brams.len()
            invariant
                self.wf(),
                self.keeps(&start),
                self.fabric.values() == low,
                self.fabric.wires@ == low_wires,
                self.fabric.dffs@ == after_low,
                self.current_time == now,
                self.event_queue@ == start.event_queue@,
                k <= self.fabric.brams@.len(),
                self.fabric.brams@.len() == start.fabric.brams@.len(),
                forall|j: int| 0 <= j < k ==> sampled(start.fabric.brams@[j], #[trigger] self.fabric.brams@[j], low_wires),
                forall|j: int| k <= j < self.fabric.brams@.len() ==> #[trigger] self.fabric.brams@[j] == start.fabric.brams@[j],
            decreases self.fabric.brams@.len() - k,
        {
            self.fabric.sample_bram(k);
            k = k + 1;
        }
        let ghost brams_low = self.fabric.brams@;
        assert(brams_low.len() == start.fabric.brams@.len());
        self.fabric.set_wire_value(clock, 1);
        let ghost high = self.fabric.values();
        let ghost high_wires = self.fabric.wires@;
        proof {
            assert(high =~= start.fabric.values().update(clock as int, 1));
            assert(clock_at(high_wires, start.fabric.wires@, clock, 1)) by {
                assert forall|i: int| 0 <= i < high_wires.len() implies (#[trigger] high_wires[i]).value
                    == if i == clock {
                    1
                } else {
                    start.fabric.wires@[i].value
                } by {
                    assert(high_wires[i].value == self.fabric.values()[i]);
                    assert(start.fabric.wires@[i].value == start.fabric.values()[i]);
                }
            }
        }
        let ghost mut added: Seq<SimulationEvent> = Seq::empty();
        let ghost tq = now.saturating_add(start.timing_model.dff_clock_to_q);
        let ghost tr = now.saturating_add(start.timing_model.bram_read_delay);
        let ghost dd = Seq::new(
            start.fabric.dffs@.len(),
            |j: int| dff_drive(start.fabric.dffs@[j].next(low_wires), high_wires),
        );
        let ghost bd = Seq::new(
            start.fabric.brams@.len(),
            |j: int| bram_drive(brams_low[j], high_wires),
        );
        proof {
            assert(dd.take(0) =~= Seq::<Option<(usize, u64)>>::empty());
        }
        let mut k: usize = 0;
        while k < self.fabric.dffs.len()
            invariant
                self.wf(),
                self.keeps(&start),
                self.fabric.values() == high,
                self.fabric.wires@ == high_wires,
                self.current_time == now,
                k <= self.fabric.dffs@.len(),
                self.fabric.dffs@.len() == start.fabric.dffs@.len(),
                forall|j: int| 0 <= j < k ==> #[trigger] self.fabric.dffs@[j] == start.fabric.dffs@[j].next(low_wires).next(high_wires),
                forall|j: int| k <= j < self.fabric.dffs@.len() ==> #[trigger] self.fabric.dffs@[j] == start.fabric.dffs@[j].next(low_wires),
                self.fabric.brams@ == brams_low,
                self.event_queue@ == schedule_all(start.event_queue@, added),
                added == drive_events(dd.take(k as int), tq),
                dd.len() == start.fabric.dffs@.len(),
                forall|j: int| 0 <= j < dd.len() ==> #[trigger] dd[j] == dff_drive(start.fabric.dffs@[j].next(low_wires), high_wires),
                tq == now.saturating_add(self.timing_model.dff_clock_to_q),
            decreases self.fabric.dffs@.len() - k,
        {
            proof {
                lemma_drive_events_step(dd, k as int, tq);
            }
            proof {
                assert(self.fabric.dffs@[k as int] == start.fabric.dffs@[k as int].next(low_wires));
                assert(self.fabric.wires@ == high_wires);
                assert(dd[k as int] == dff_drive(start.fabric.dffs@[k as int].next(low_wires), high_wires));
            }
            let ghost d_before = self.fabric.dffs@[k as int];
            let drive = self.fabric.sample_dff(k);
            proof {
                assert(drive == dff_drive(d_before, high_wires));
                assert(drive == dd[k as int]);
            }
            if let Some((o, v)) = drive {
                let at = now.saturating_add(self.timing_model.dff_clock_to_q);
                self.schedule_event(at, Some(o), v);
                proof {
                    let e = SimulationEvent { time: at, wire_index: o, new_value: v };
                    assert(added.push(e).drop_last() == added);
                    added = added.push(e);
                }
            }
            k = k + 1;
        }
        let ghost after_high = self.fabric.dffs@;
        proof {
            assert(dd.take(dd.len() as int) == dd);
            assert(bd.take(0) =~= Seq::<Option<(usize, u64)>>::empty());
            assert(added =~= drive_events(dd, tq) + drive_events(bd.take(0), tr));
        }
        let mut k: usize = 0;
        while k < self.fabric.brams.len()
            invariant
                self.wf(),
                self.keeps(&start),
                self.fabric.values() == high,
                self.fabric.wires@ == high_wires,
                self.fabric.dffs@ == after_high,
                self.current_time == now,
                k <= self.fabric.brams@.len(),
                self.fabric.brams@.len() == start.fabric.brams@.len(),
                forall|j: int| 0 <= j < k ==> sampled(brams_low[j], #[trigger] self.fabric.brams@[j], high_wires),
                forall|j: int| k <= j < self.fabric.brams@.len() ==> #[trigger] self.fabric.brams@[j] == brams_low[j],
                self.event_queue@ == schedule_all(start.event_queue@, added),
                added == drive_events(dd, tq) + drive_events(bd.take(k as int), tr),
                bd.len() == start.fabric.brams@.len(),
                forall|j: int| 0 <= j < bd.len() ==> #[trigger] bd[j] == bram_drive(brams_low[j], high_wires),
                forall|j: int| 0 <= j < dd.len() ==> #[trigger] dd[j] == dff_drive(start.fabric.dffs@[j].next(low_wires), high_wires),
                dd.len() == start.fabric.dffs@.len(),
                tr == now.saturating_add(self.timing_model.bram_read_delay),
                brams_low.len() == start.fabric.brams@.len(),
            decreases self.fabric.brams@.len() - k,
        {
            proof {
                lemma_drive_events_step(bd, k as int, tr);
            }
            proof {
                assert(self.fabric.brams@[k as int] == brams_low[k as int]);
                assert(self.fabric.wires@ == high_wires);
            }
            let drive = self.fabric.sample_bram(k);
            proof {
                assert(drive == bd[k as int]);
                if drive is None {
                    assert(added =~= drive_events(dd, tq) + drive_events(bd.take(k + 1), tr));
                }
            }
            if let Some((o, v)) = drive {
                let at = now.saturating_add(self.timing_model.bram_read_delay);
                self.schedule_event(at, Some(o), v);
                proof {
                    let e = SimulationEvent { time: at, wire_index: o, new_value: v };
                    assert(added.push(e).drop_last() == added);
                    added = added.push(e);
                    assert(added =~= drive_events(dd, tq) + drive_events(bd.take(k + 1), tr));
                }
            }
            k = k + 1;
        }
        proof {
            assert forall|j: int| 0 <= j < start.fabric.dffs@.len() implies #[trigger] self.fabric.dffs@[j]
                == start.fabric.dffs@[j].next(low_wires).next(high_wires) by {
                assert(after_high[j] == start.fabric.dffs@[j].next(low_wires).next(high_wires));
            }
            assert(dd.take(dd.len() as int) == dd);
            assert(bd.take(bd.len() as int) == bd);
            assert forall|j: int| 0 <= j < start.fabric.brams@.len() implies sampled(start.fabric.brams@[j], #[trigger] brams_low[j], low_wires)
                && sampled(brams_low[j], self.fabric.brams@[j], high_wires) by {}
            assert(edge_step(start, *self, low_wires, high_wires, brams_low));
            assert(clock_edge(start, *self));
        }
    }
}

proof fn lemma_time_after_step(t0: u64, period: u64, k: int)
    requires
        k >= 0,
    ensures
        time_after(t0, period, k + 1) == if time_after(t0, period, k) + period <= u64::MAX {
            time_after(t0, period, k) + period
        } else {
            u64::MAX as int
        },
{
    assert((k + 1) * period == k * period + period) by (nonlinear_arith);
    assert(k * period >= 0) by (nonlinear_arith)
        requires
            k >= 0,
    ;
}

impl SimulationEngine {
    /// One cycle: drain the events due before the next edge, in queue
    /// order and at most `MAX_EVENTS_PER_CYCLE` of them, move the time to the
    /// edge, and apply the periodic clock edge.
    #[verifier::rlimit(60)]
    fn run_cycle(&mut self)
        requires
            old(self).wf(),
        ensures
            final(self).wf(),
            final(self).keeps(old(self)),
            one_cycle(*old(self), *final(self)),
            final(self).current_time == time_after(
                old(self).current_time,
                old(self).timing_model.clock_period,
                1,
            ),
    {
        let period = self.timing_model.clock_period;
        let ghost before = *self;
        let edge = self.current_time.saturating_add(period);
        let mut steps: usize = 0;
        let ghost mut steps_trace: Seq<SimulationEngine> = seq![*self];
        while steps < MAX_EVENTS_PER_CYCLE && self.event_queue.len() > 0
            && self.event_queue[0].time < edge
            invariant
                self.wf(),
                self.keeps(&before),
                steps <= MAX_EVENTS_PER_CYCLE,
                edge == time_after(before.current_time, before.timing_model.clock_period, 1),
                steps_trace.len() == steps + 1,
                steps_trace[0] == before,
                steps_trace.last() == *self,
                forall|i: int|
                    0 <= i < steps ==> event_applied(#[trigger] steps_trace[i], steps_trace[i + 1])
                        && steps_trace[i].event_queue@[0].time < edge,
            decreases MAX_EVENTS_PER_CYCLE - steps,
        {
            let ghost q = self.event_queue@;
            let ghost pre_step = *self;
            let event = self.event_queue.remove(0);
            proof {
                assert forall|a: int, b: int|
                    0 <= a < b < self.event_queue@.len() implies self.event_queue@[a].time
                    <= self.event_queue@[b].time by {
                    assert(self.event_queue@[a] == q[a + 1]);
                    assert(self.event_queue@[b] == q[b + 1]);
                }
            }
            if event.time > self.current_time {
                self.current_time = event.time;
            }
            let ghost taken = *self;
            self.process_event(event);
            proof {
                assert(taken.event_queue@ =~= pre_step.event_queue@.subrange(1, pre_step.event_queue@.len() as int));
                assert(taken.event_step(pre_step.event_queue@[0], *self));
                assert(event_applied(pre_step, *self));
                steps_trace = steps_trace.push(*self);
                assert forall|i: int|
                    0 <= i < steps + 1 implies event_applied(#[trigger] steps_trace[i], steps_trace[i + 1])
                        && steps_trace[i].event_queue@[0].time < edge by {
                    if i == steps {
                        assert(steps_trace[i] == pre_step);
                    }
                }
            }
            steps = steps + 1;
        }
        proof {
            if steps < MAX_EVENTS_PER_CYCLE && self.event_queue@.len() > 0 {
                assert forall|i: int| 0 <= i < self.event_queue@.len() implies #[trigger] self.event_queue@[i].time
                    >= edge by {
                    assert(self.event_queue@[0].time <= self.event_queue@[i].time);
                }
            }
        }
        self.current_time = edge;
        let ghost drained = *self;
        let ghost applied = steps as int;
        self.trigger_clock_events();
        proof {
            lemma_time_after_step(before.current_time, period, 0);
            assert(time_after(before.current_time, period, 1) == edge);
            lemma_time_after_step(before.current_time, period, 0);
            assert(steps_trace.len() == applied + 1);
            assert(drained_from(before, drained, applied));
            reveal(one_cycle);
            assert(one_cycle(before, *self));
        }
    }

    /// Runs `max_cycles` clock cycles. Each cycle drains, in order, the
    /// queued events due before the next clock edge (at most
    /// `MAX_EVENTS_PER_CYCLE` of them), then advances the time by one clock
    /// period and applies the periodic clock edge, then samples every output.
    #[verifier::rlimit(80)]
    pub fn run(&mut self, max_cycles: usize) -> (r: SimulationResult)
        requires
            old(self).wf(),
        ensures
            final(self).wf(),
            final(self).keeps(old(self)),
            final(self).current_time == time_after(
                old(self).current_time,
                old(self).timing_model.clock_period,
                max_cycles as int,
            ),
            r.cycles == max_cycles,
            r.outputs@.len() == old(self).fabric.outputs@.len(),
            forall|i: int|
                0 <= i < r.outputs@.len() ==> {
                    &&& (#[trigger] r.outputs@[i]).0 == old(self).fabric.outputs@[i].0
                    &&& r.outputs@[i].1@.len() == max_cycles
                },
            exists|trace: Seq<SimulationEngine>|
                {
                    &&& trace.len() == max_cycles + 1
                    &&& trace[0] == *old(self)
                    &&& trace.last() == *final(self)
                    &&& forall|k: int| 0 <= k < max_cycles ==> one_cycle(#[trigger] trace[k], trace[k + 1])
                    &&& forall|i: int, k: int|
                        0 <= i < r.outputs@.len() && 0 <= k < max_cycles ==> #[trigger] r.outputs@[i].1@[k]
                            == trace[k + 1].fabric.wires@[old(self).fabric.outputs@[i].1 as int].value
                },
    {
        let ghost start = *self;
        let n = self.fabric.outputs.len();
        let mut outputs: Vec<(String, Vec<u64>)> = Vec::new();
        let mut i: usize = 0;
        while i < n
            invariant
                *self == start,
                n == self.fabric.outputs@.len(),
                i <= n,
                outputs@.len() == i,
                forall|j: int|
                    0 <= j < i ==> (#[trigger] outputs@[j]).0 == self.fabric.outputs@[j].0
                        && outputs@[j].1@.len() == 0,
            decreases n - i,
        {
            outputs.push((self.fabric.outputs[i].0.clone(), Vec::new()));
            i = i + 1;
        }
        let period = self.timing_model.clock_period;
        let ghost mut trace: Seq<SimulationEngine> = seq![*self];
        let mut cycle: usize = 0;
        while cycle < max_cycles
            invariant
                self.wf(),
                self.keeps(&start),
                period == start.timing_model.clock_period,
                n == start.fabric.outputs@.len(),
                cycle <= max_cycles,
                self.current_time == time_after(start.current_time, period, cycle as int),
                trace.len() == cycle + 1,
                trace[0] == start,
                trace.last() == *self,
                forall|k: int| 0 <= k < cycle ==> one_cycle(#[trigger] trace[k], trace[k + 1]),
                forall|k: int| 0 <= k <= cycle ==> (#[trigger] trace[k]).keeps(&start),
                outputs@.len() == n,
                forall|j: int|
                    0 <= j < n ==> {
                        &&& (#[trigger] outputs@[j]).0 == start.fabric.outputs@[j].0
                        &&& outputs@[j].1@.len() == cycle
                    },
                forall|j: int, k: int|
                    0 <= j < n && 0 <= k < cycle ==> #[trigger] outputs@[j].1@[k]
                        == trace[k + 1].fabric.wires@[start.fabric.outputs@[j].1 as int].value,
            decreases max_cycles - cycle,
        {
            let ghost before = *self;
            self.run_cycle();
            proof {
                lemma_time_after_step(start.current_time, period, cycle as int);
                trace = trace.push(*self);
            }
            let mut j: usize = 0;
            while j < n
                invariant
                    self.wf(),
                    self.keeps(&start),
                    n == start.fabric.outputs@.len(),
                    trace.last() == *self,
                    trace.len() == cycle + 2,
                    j <= n,
                    outputs@.len() == n,
                    forall|k: int|
                        0 <= k < n ==> {
                            &&& (#[trigger] outputs@[k]).0 == start.fabric.outputs@[k].0
                            &&& outputs@[k].1@.len() == if k < j {
                                cycle + 1
                            } else {
                                cycle as int
                            }
                        },
                    forall|jj: int, k: int|
                        0 <= jj < n && 0 <= k < cycle ==> #[trigger] outputs@[jj].1@[k]
                            == trace[k + 1].fabric.wires@[start.fabric.outputs@[jj].1 as int].value,
                    forall|jj: int|
                        0 <= jj < j ==> #[trigger] outputs@[jj].1@[cycle as int]
                            == self.fabric.wires@[start.fabric.outputs@[jj].1 as int].value,
                decreases n - j,
            {
                let w = self.fabric.outputs[j].1;
                let v = self.fabric.wires[w].value;
                outputs[j].1.push(v);
                j = j + 1;
            }
            proof {
                assert forall|jj: int, k: int|
                    0 <= jj < n && 0 <= k < cycle + 1 implies #[trigger] outputs@[jj].1@[k]
                        == trace[k + 1].fabric.wires@[start.fabric.outputs@[jj].1 as int].value by {
                    if k == cycle {
                        assert(outputs@[jj].1@[cycle as int] == self.fabric.wires@[start.fabric.outputs@[jj].1 as int].value);
                    }
                }
            }
            cycle = cycle + 1;
        }
        SimulationResult { cycles: max_cycles, outputs }
    }
}

} // verus!
