use vstd::prelude::*;
use vstd::set_lib::set_int_range;

verus! {

/// A unit of work: it may run from `arrival_time` on and needs `burst_duration` ticks of CPU.
#[derive(Clone, Debug)]
pub struct Process {
    pub id: String,
    pub arrival_time: u64,
    pub burst_duration: u64,
    /// Lower values run first under the priority policy.
    pub priority: u32,
}

/// One contiguous slice of CPU time, `[start_time, end_time)`, given to process `pid`.
#[derive(Clone, Debug)]
pub struct ExecutionLog {
    pub pid: String,
    pub start_time: u64,
    pub end_time: u64,
}

/// Why a process set or a policy was refused.
#[derive(Clone, Copy, Debug, PartialEq, Eq, Structural)]
pub enum ScheduleError {
    /// The process set holds no process.
    EmptyProcessSet,
    /// Some process asks for no CPU time at all.
    ZeroBurst,
    /// A round-robin quantum of zero.
    ZeroQuantum,
}

/// The selection key of a non-preemptive policy.
#[derive(Clone, Copy, Debug, PartialEq, Eq, Structural)]
pub enum Rule {
    /// Earliest arrival first.
    ArrivalOrder,
    /// Smallest burst first, then earliest arrival.
    ShortestBurst,
    /// Smallest priority value first, then earliest arrival.
    HighestPriority,
}

/// A slice of the timeline in the model: process `index` of the input runs in `[start, end)`.
pub struct Slice {
    pub index: int,
    pub start: int,
    pub end: int,
}

/// A process waiting in the round-robin queue with `left` ticks of work still to do.
pub struct Pending {
    pub index: int,
    pub left: int,
}

pub open spec fn latest_arrival(ps: Seq<Process>) -> int
    decreases ps.len(),
{
    if ps.len() == 0 {
        0
    } else {
        let rest = latest_arrival(ps.drop_last());
        if rest < ps.last().arrival_time {
            ps.last().arrival_time as int
        } else {
            rest
        }
    }
}

/// The burst of every process `k` with `done[k]` false.
pub open spec fn pending_burst(ps: Seq<Process>, done: Seq<bool>) -> int
    decreases done.len(),
{
    if done.len() == 0 {
        0
    } else {
        pending_burst(ps, done.drop_last()) + if done.last() {
            0int
        } else {
            ps[done.len() - 1].burst_duration as int
        }
    }
}

pub open spec fn total_burst(ps: Seq<Process>) -> int {
    pending_burst(ps, Seq::new(ps.len(), |k: int| false))
}

/// Every instant of any timeline of `ps` fits in a `u64`.
pub open spec fn fits(ps: Seq<Process>) -> bool {
    latest_arrival(ps) + total_burst(ps) <= u64::MAX
}

pub proof fn lemma_arrival_le_latest(ps: Seq<Process>, k: int)
    requires
        0 <= k < ps.len(),
    ensures
        ps[k].arrival_time <= latest_arrival(ps),
    decreases ps.len(),
{
    if k < ps.len() - 1 {
        lemma_arrival_le_latest(ps.drop_last(), k);
    }
}

pub proof fn lemma_pending_bounds(ps: Seq<Process>, done: Seq<bool>)
    requires
        done.len() <= ps.len(),
    ensures
        0 <= pending_burst(ps, done) <= pending_burst(ps, Seq::new(done.len(), |k: int| false)),
    decreases done.len(),
{
    if done.len() > 0 {
        let falses = Seq::new(done.len(), |k: int| false);
        assert(falses.drop_last() =~= Seq::new(done.drop_last().len(), |k: int| false));
        lemma_pending_bounds(ps, done.drop_last());
    }
}

pub proof fn lemma_pending_mark(ps: Seq<Process>, done: Seq<bool>, i: int)
    requires
        0 <= i < done.len(),
        !done[i],
    ensures
        pending_burst(ps, done.update(i, true)) == pending_burst(ps, done)
            - ps[i].burst_duration,
    decreases done.len(),
{
    let after = done.update(i, true);
    if i == done.len() - 1 {
        assert(after.drop_last() =~= done.drop_last());
    } else {
        assert(after.drop_last() =~= done.drop_last().update(i, true));
        lemma_pending_mark(ps, done.drop_last(), i);
    }
}

pub open spec fn has_zero_burst(ps: Seq<Process>) -> bool {
    exists|k: int| 0 <= k < ps.len() && #[trigger] ps[k].burst_duration == 0
}

/// The refusal of the non-preemptive policies, if any.
pub open spec fn input_error(ps: Seq<Process>) -> Option<ScheduleError> {
    if ps.len() == 0 {
        Some(ScheduleError::EmptyProcessSet)
    } else if has_zero_burst(ps) {
        Some(ScheduleError::ZeroBurst)
    } else {
        None
    }
}

/// The refusal of round robin with this quantum, if any.
pub open spec fn rotation_error(quantum: u64, ps: Seq<Process>) -> Option<ScheduleError> {
    if quantum == 0 {
        Some(ScheduleError::ZeroQuantum)
    } else {
        input_error(ps)
    }
}

pub open spec fn key(rule: Rule, p: Process) -> (int, int) {
    match rule {
        Rule::ArrivalOrder => (p.arrival_time as int, 0),
        Rule::ShortestBurst => (p.burst_duration as int, p.arrival_time as int),
        Rule::HighestPriority => (p.priority as int, p.arrival_time as int),
    }
}

/// Process `i` is chosen before process `j`: by key, then by position in the input.
pub open spec fn precedes(rule: Rule, ps: Seq<Process>, i: int, j: int) -> bool {
    let a = key(rule, ps[i]);
    let b = key(rule, ps[j]);
    a.0 < b.0 || (a.0 == b.0 && (a.1 < b.1 || (a.1 == b.1 && i < j)))
}

pub open spec fn is_ready(ps: Seq<Process>, rem: Set<int>, t: int, i: int) -> bool {
    rem.contains(i) && 0 <= i < ps.len() && ps[i].arrival_time <= t
}

pub open spec fn is_first_arrival(ps: Seq<Process>, rem: Set<int>, a: int) -> bool {
    (exists|i: int| #[trigger] rem.contains(i) && ps[i].arrival_time == a)
        && forall|j: int| #[trigger] rem.contains(j) ==> a <= ps[j].arrival_time
}

/// The earliest arrival among the processes of `rem`.
pub open spec fn first_arrival(ps: Seq<Process>, rem: Set<int>) -> int {
    choose|a: int| is_first_arrival(ps, rem, a)
}

/// When the next decision is taken: now, or at the next arrival if nothing has arrived.
pub open spec fn dispatch_time(ps: Seq<Process>, rem: Set<int>, clock: int) -> int {
    let a = first_arrival(ps, rem);
    if clock < a {
        a
    } else {
        clock
    }
}

pub open spec fn is_pick(rule: Rule, ps: Seq<Process>, rem: Set<int>, t: int, i: int) -> bool {
    is_ready(ps, rem, t, i) && forall|j: int|
        #[trigger] is_ready(ps, rem, t, j) && j != i ==> precedes(rule, ps, i, j)
}

/// The ready process that goes first at time `t`.
pub open spec fn pick(rule: Rule, ps: Seq<Process>, rem: Set<int>, t: int) -> int {
    choose|i: int| is_pick(rule, ps, rem, t, i)
}

/// The non-preemptive timeline of the processes in `rem`, from `clock` on.
pub open spec fn dispatch(rule: Rule, ps: Seq<Process>, rem: Set<int>, clock: int) -> Seq<Slice>
    decreases rem.len(),
    when rem.finite()
{
    if rem.len() == 0 {
        seq![]
    } else {
        let t = dispatch_time(ps, rem, clock);
        let i = pick(rule, ps, rem, t);
        if rem.contains(i) {
            let e = t + ps[i].burst_duration;
            seq![Slice { index: i, start: t, end: e }] + dispatch(rule, ps, rem.remove(i), e)
        } else {
            seq![]
        }
    }
}

/// The whole non-preemptive timeline of `ps` under `rule`.
pub open spec fn non_preemptive(rule: Rule, ps: Seq<Process>) -> Seq<Slice> {
    dispatch(rule, ps, set_int_range(0, ps.len() as int), 0)
}

pub open spec fn outstanding(queue: Seq<Pending>) -> int
    decreases queue.len(),
{
    if queue.len() == 0 {
        0
    } else {
        (if queue[0].left > 0 {
            queue[0].left
        } else {
            0
        }) + outstanding(queue.drop_first())
    }
}

/// The round-robin timeline of `queue` from `clock` on: the head runs for at most
/// `quantum` ticks and, if work is left, goes to the back of the queue.
pub open spec fn rotate(quantum: int, queue: Seq<Pending>, clock: int) -> Seq<Slice>
    decreases outstanding(queue), queue.len(),
    via rotate_decreases
{
    if queue.len() == 0 || quantum <= 0 {
        seq![]
    } else {
        let p = queue[0];
        let s = if p.left < quantum {
            p.left
        } else {
            quantum
        };
        let head = seq![Slice { index: p.index, start: clock, end: clock + s }];
        if p.left > quantum {
            head + rotate(
                quantum,
                queue.drop_first().push(Pending { index: p.index, left: p.left - quantum }),
                clock + s,
            )
        } else {
            head + rotate(quantum, queue.drop_first(), clock + s)
        }
    }
}

pub proof fn lemma_outstanding_push(queue: Seq<Pending>, p: Pending)
    ensures
        outstanding(queue.push(p)) == outstanding(queue) + if p.left > 0 {
            p.left
        } else {
            0
        },
    decreases queue.len(),
{
    if queue.len() == 0 {
        assert(queue.push(p).drop_first() =~= queue);
    } else {
        assert(queue.push(p).drop_first() =~= queue.drop_first().push(p));
        lemma_outstanding_push(queue.drop_first(), p);
    }
}

pub proof fn lemma_outstanding_nonneg(queue: Seq<Pending>)
    ensures
        outstanding(queue) >= 0,
    decreases queue.len(),
{
    if queue.len() > 0 {
        lemma_outstanding_nonneg(queue.drop_first());
    }
}

#[via_fn]
proof fn rotate_decreases(quantum: int, queue: Seq<Pending>, clock: int) {
    if queue.len() > 0 && quantum > 0 {
        let p = queue[0];
        lemma_outstanding_nonneg(queue.drop_first());
        assert(outstanding(queue) == (if p.left > 0 {
            p.left
        } else {
            0
        }) + outstanding(queue.drop_first()));
        if p.left > quantum {
            lemma_outstanding_push(queue.drop_first(), Pending { index: p.index, left: p.left - quantum });
        }
    }
}

/// The round-robin queue at the start: processes in order of arrival, each with its whole burst.
pub open spec fn arrival_queue(order: Seq<Slice>) -> Seq<Pending> {
    order.map_values(|s: Slice| Pending { index: s.index, left: s.end - s.start })
}

/// The whole round-robin timeline of `ps`: it starts at the first arrival and never idles.
pub open spec fn round_robin(quantum: int, ps: Seq<Process>) -> Seq<Slice> {
    let order = non_preemptive(Rule::ArrivalOrder, ps);
    if order.len() == 0 {
        seq![]
    } else {
        rotate(quantum, arrival_queue(order), order[0].start)
    }
}

/// The logs that a timeline of the model stands for.
pub open spec fn logs_of(ps: Seq<Process>, sl: Seq<Slice>) -> Seq<ExecutionLog> {
    sl.map_values(
        |s: Slice| ExecutionLog { pid: ps[s.index].id, start_time: s.start as u64, end_time: s.end as u64 },
    )
}

} // verus!
