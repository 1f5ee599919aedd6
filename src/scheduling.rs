use vstd::prelude::*;
use vstd::set_lib::{lemma_int_range, set_int_range};
use crate::model::{
    arrival_queue, dispatch, first_arrival, fits, has_zero_burst, input_error, is_first_arrival,
    is_pick, is_ready, latest_arrival, lemma_arrival_le_latest, lemma_outstanding_nonneg,
    lemma_outstanding_push, lemma_pending_bounds, lemma_pending_mark, logs_of, non_preemptive,
    outstanding, pending_burst, pick, precedes, rotate, rotation_error, round_robin, total_burst,
    ExecutionLog, Pending, Process, Rule, ScheduleError, Slice,
};

verus! {

/// A slice of the timeline as the engine computes it.
#[derive(Clone, Copy)]
pub struct Slot {
    pub index: usize,
    pub start: u64,
    pub end: u64,
}

pub open spec fn slice_of(s: Slot) -> Slice {
    Slice { index: s.index as int, start: s.start as int, end: s.end as int }
}

pub open spec fn slices(v: Seq<Slot>) -> Seq<Slice> {
    v.map_values(|s: Slot| slice_of(s))
}

/// The processes not yet dispatched.
pub open spec fn remaining(done: Seq<bool>) -> Set<int> {
    Set::new(|i: int| 0 <= i < done.len() && !done[i])
}

/// Slots that follow each other in time, each as long as its process's burst.
pub open spec fn back_to_back(ps: Seq<Process>, v: Seq<Slot>) -> bool {
    &&& forall|k: int|
        0 <= k < v.len() ==> (#[trigger] v[k]).index < ps.len() && v[k].end == v[k].start
            + ps[v[k].index as int].burst_duration
    &&& forall|k: int| 0 <= k < v.len() - 1 ==> #[trigger] v[k].end <= v[k + 1].start
}

fn goes_before(rule: Rule, ps: &Vec<Process>, i: usize, j: usize) -> (r: bool)
    requires
        i < ps.len(),
        j < ps.len(),
    ensures
        r == precedes(rule, ps@, i as int, j as int),
{
    let (a0, a1, b0, b1): (u64, u64, u64, u64) = match rule {
        Rule::ArrivalOrder => (ps[i].arrival_time, 0, ps[j].arrival_time, 0),
        Rule::ShortestBurst => (
            ps[i].burst_duration,
            ps[i].arrival_time,
            ps[j].burst_duration,
            ps[j].arrival_time,
        ),
        Rule::HighestPriority => (
            ps[i].priority as u64,
            ps[i].arrival_time,
            ps[j].priority as u64,
            ps[j].arrival_time,
        ),
    };
    a0 < b0 || (a0 == b0 && (a1 < b1 || (a1 == b1 && i < j)))
}

/// The earliest arrival among the processes not yet dispatched.
fn earliest_pending(ps: &Vec<Process>, done: &Vec<bool>) -> (m: u64)
    requires
        done.len() == ps.len(),
        remaining(done@).len() > 0,
        remaining(done@).finite(),
    ensures
        is_first_arrival(ps@, remaining(done@), m as int),
{
    let n = ps.len();
    let mut m: u64 = 0;
    let mut found: bool = false;
    let mut j: usize = 0;
    while j < n
        invariant
            j <= n,
            n == ps.len(),
            done.len() == n,
            found ==> exists|x: int| 0 <= x < j && !done[x] && ps[x].arrival_time == m,
            found ==> forall|x: int| 0 <= x < j && !done[x] ==> m <= ps[x].arrival_time,
            !found ==> forall|x: int| 0 <= x < j ==> done[x],
        decreases n - j,
    {
        if !done[j] && (!found || ps[j].arrival_time < m) {
            m = ps[j].arrival_time;
            found = true;
        }
        j += 1;
    }
    if !found {
        assert(remaining(done@) =~= Set::empty());
    }
    let ghost x = choose|x: int| 0 <= x < n && !done[x] && ps[x].arrival_time == m;
    assert(remaining(done@).contains(x));
    m
}

/// The ready process that goes first at time `t`, if any has arrived by then.
fn best_ready(rule: Rule, ps: &Vec<Process>, done: &Vec<bool>, t: u64) -> (best: usize)
    requires
        done.len() == ps.len(),
    ensures
        best == ps.len() ==> forall|x: int| !is_ready(ps@, remaining(done@), t as int, x),
        best < ps.len() ==> is_pick(rule, ps@, remaining(done@), t as int, best as int),
        best <= ps.len(),
{
    let n = ps.len();
    let ghost rem = remaining(done@);
    let mut best: usize = n;
    let mut j: usize = 0;
    while j < n
        invariant
            j <= n,
            n == ps.len(),
            done.len() == n,
            rem == remaining(done@),
            best == n || (best < j && is_ready(ps@, rem, t as int, best as int)),
            best < n ==> forall|x: int|
                0 <= x < j && #[trigger] is_ready(ps@, rem, t as int, x) && x != best
                    ==> precedes(rule, ps@, best as int, x),
            best == n ==> forall|x: int| 0 <= x < j ==> !#[trigger] is_ready(ps@, rem, t as int, x),
        decreases n - j,
    {
        if !done[j] && ps[j].arrival_time <= t && (best == n || goes_before(rule, ps, j, best)) {
            best = j;
        }
        j += 1;
    }
    best
}

/// The timeline of a non-preemptive policy: at each decision the ready process that
/// `rule` puts first runs to completion; with none ready the clock jumps to the next arrival.
pub fn dispatch_slots(rule: Rule, ps: &Vec<Process>) -> (slots: Vec<Slot>)
    requires
        fits(ps@),
    ensures
        slices(slots@) == non_preemptive(rule, ps@),
        slots.len() == ps.len(),
        back_to_back(ps@, slots@),
{
    let n = ps.len();
    let mut done: Vec<bool> = Vec::new();
    let mut k: usize = 0;
    while k < n
        invariant
            done.len() == k,
            k <= n,
            forall|j: int| 0 <= j < k ==> !done[j],
        decreases n - k,
    {
        done.push(false);
        k += 1;
    }
    proof {
        assert(remaining(done@) =~= set_int_range(0, n as int));
        lemma_int_range(0, n as int);
        assert(done@ =~= Seq::new(n as nat, |k: int| false));
    }
    let mut clock: u64 = 0;
    let mut slots: Vec<Slot> = Vec::new();
    let mut count: usize = 0;
    while count < n
        invariant
            n == ps.len(),
            done.len() == n,
            count <= n,
            fits(ps@),
            remaining(done@).finite(),
            remaining(done@).len() == n - count,
            slots.len() == count,
            slices(slots@) + dispatch(rule, ps@, remaining(done@), clock as int) == non_preemptive(
                rule,
                ps@,
            ),
            clock + pending_burst(ps@, done@) <= latest_arrival(ps@) + total_burst(ps@),
            count > 0 ==> slots[count - 1].end == clock,
            back_to_back(ps@, slots@),
        decreases n - count,
    {
        let ghost rem = remaining(done@);
        let m = earliest_pending(ps, &done);
        let t: u64 = if clock < m {
            m
        } else {
            clock
        };
        let best = best_ready(rule, ps, &done, t);
        proof {
            let x = choose|x: int| #[trigger] rem.contains(x) && ps@[x].arrival_time == m;
            assert(is_ready(ps@, rem, t as int, x));
            lemma_arrival_le_latest(ps@, x);
            let a = first_arrival(ps@, rem);
            assert(is_first_arrival(ps@, rem, a));
            assert(a == m);
            let i = pick(rule, ps@, rem, t as int);
            assert(is_pick(rule, ps@, rem, t as int, best as int));
            assert(i == best);
            lemma_pending_mark(ps@, done@, best as int);
            lemma_pending_bounds(ps@, done@.update(best as int, true));
            lemma_pending_bounds(ps@, done@);
        }
        let e = t + ps[best].burst_duration;
        let ghost old_slots = slots@;
        slots.push(Slot { index: best, start: t, end: e });
        done.set(best, true);
        proof {
            assert(remaining(done@) =~= rem.remove(best as int));
            assert(slices(slots@) =~= slices(old_slots).push(slice_of(slots[count as int])));
            assert(slices(slots@) + dispatch(rule, ps@, remaining(done@), e as int) =~= slices(
                old_slots,
            ) + dispatch(rule, ps@, rem, clock as int));
        }
        clock = e;
        count += 1;
    }
    proof {
        assert(remaining(done@) =~= Set::empty());
        assert(slices(slots@) =~= non_preemptive(rule, ps@));
    }
    slots
}

/// A process in the round-robin queue, with the work it has left.
#[derive(Clone, Copy)]
pub struct Entry {
    pub index: usize,
    pub left: u64,
}

pub open spec fn pending_of(e: Entry) -> Pending {
    Pending { index: e.index as int, left: e.left as int }
}

pub open spec fn entries(v: Seq<Entry>) -> Seq<Pending> {
    v.map_values(|e: Entry| pending_of(e))
}

/// Back-to-back slots span at least the work they hold.
proof fn lemma_span(ps: Seq<Process>, v: Seq<Slot>)
    requires
        v.len() > 0,
        back_to_back(ps, v),
    ensures
        v[0].start + outstanding(arrival_queue(slices(v))) <= v.last().end,
    decreases v.len(),
{
    let q = arrival_queue(slices(v));
    let rest = v.drop_first();
    assert(q.drop_first() =~= arrival_queue(slices(rest)));
    assert(q[0].left == v[0].end - v[0].start);
    assert(v[0].index < ps.len());
    if v.len() == 1 {
        assert(arrival_queue(slices(rest)).len() == 0);
        assert(outstanding(q.drop_first()) == 0);
    } else {
        assert(rest.last() == v.last());
        assert(rest[0] == v[1]);
        assert(back_to_back(ps, rest)) by {
            assert forall|k: int| 0 <= k < rest.len() - 1 implies #[trigger] rest[k].end
                <= rest[k + 1].start by {
                assert(rest[k] == v[k + 1]);
                assert(rest[k + 1] == v[k + 2]);
            }
            assert forall|k: int| 0 <= k < rest.len() implies (#[trigger] rest[k]).index < ps.len()
                && rest[k].end == rest[k].start + ps[rest[k].index as int].burst_duration by {
                assert(rest[k] == v[k + 1]);
            }
        }
        lemma_span(ps, rest);
        assert(v[0].end <= v[1].start);
    }
}

/// The round-robin timeline of the processes of `order`, in that order, from its first start.
pub fn rotate_slots(quantum: u64, ps: &Vec<Process>, order: &Vec<Slot>) -> (slots: Vec<Slot>)
    requires
        quantum > 0,
        order.len() > 0,
        back_to_back(ps@, order@),
        forall|k: int| 0 <= k < ps.len() ==> #[trigger] ps[k].burst_duration > 0,
    ensures
        slices(slots@) == rotate(quantum as int, arrival_queue(slices(order@)), order[0].start as int),
        forall|k: int| 0 <= k < slots.len() ==> (#[trigger] slots[k]).index < ps.len(),
{
    let mut cur: Vec<Entry> = Vec::new();
    let mut j: usize = 0;
    while j < order.len()
        invariant
            j <= order.len(),
            cur.len() == j,
            back_to_back(ps@, order@),
            forall|k: int| 0 <= k < ps.len() ==> #[trigger] ps[k].burst_duration > 0,
            forall|k: int|
                0 <= k < j ==> (#[trigger] cur[k]).index == order[k].index && cur[k].left
                    == order[k].end - order[k].start,
            forall|k: int| 0 <= k < j ==> #[trigger] cur[k].left > 0,
        decreases order.len() - j,
    {
        let s = order[j];
        assert(order[j as int] == s);
        cur.push(Entry { index: s.index, left: s.end - s.start });
        j += 1;
    }
    let mut clock: u64 = order[0].start;
    proof {
        assert(entries(cur@) =~= arrival_queue(slices(order@)));
        lemma_span(ps@, order@);
    }
    let ghost whole = rotate(quantum as int, entries(cur@), clock as int);
    let ghost cap = clock + outstanding(entries(cur@));
    let mut slots: Vec<Slot> = Vec::new();
    while cur.len() > 0
        invariant
            quantum > 0,
            slices(slots@) + rotate(quantum as int, entries(cur@), clock as int) == whole,
            clock + outstanding(entries(cur@)) == cap,
            cap <= u64::MAX,
            forall|k: int| 0 <= k < cur.len() ==> #[trigger] cur[k].left > 0,
            forall|k: int| 0 <= k < cur.len() ==> #[trigger] cur[k].index < ps.len(),
            forall|k: int| 0 <= k < slots.len() ==> (#[trigger] slots[k]).index < ps.len(),
        decreases cap - clock,
    {
        let ghost c0 = clock;
        let mut next: Vec<Entry> = Vec::new();
        let mut k: usize = 0;
        assert(cur@.subrange(0, cur.len() as int) + next@ =~= cur@);
        while k < cur.len()
            invariant
                quantum > 0,
                k <= cur.len(),
                cur.len() > 0,
                slices(slots@) + rotate(
                    quantum as int,
                    entries(cur@.subrange(k as int, cur.len() as int) + next@),
                    clock as int,
                ) == whole,
                clock + outstanding(entries(cur@.subrange(k as int, cur.len() as int) + next@))
                    == cap,
                cap <= u64::MAX,
                forall|x: int| 0 <= x < cur.len() ==> #[trigger] cur[x].left > 0,
                forall|x: int| 0 <= x < next.len() ==> #[trigger] next[x].left > 0,
                forall|x: int| 0 <= x < cur.len() ==> #[trigger] cur[x].index < ps.len(),
                forall|x: int| 0 <= x < next.len() ==> #[trigger] next[x].index < ps.len(),
                forall|x: int| 0 <= x < slots.len() ==> (#[trigger] slots[x]).index < ps.len(),
                clock >= c0,
                k > 0 ==> clock > c0,
            decreases cur.len() - k,
        {
            let e = cur[k];
            let ghost q = entries(cur@.subrange(k as int, cur.len() as int) + next@);
            let ghost rest = entries(cur@.subrange(k as int + 1, cur.len() as int) + next@);
            proof {
                assert(q[0] == pending_of(e));
                assert(q.drop_first() =~= rest);
                lemma_outstanding_nonneg(rest);
                assert(outstanding(q) == e.left + outstanding(rest));
            }
            let s: u64 = if e.left < quantum {
                e.left
            } else {
                quantum
            };
            let ghost old_slots = slots@;
            let ghost old_clock = clock;
            slots.push(Slot { index: e.index, start: clock, end: clock + s });
            clock = clock + s;
            if e.left > quantum {
                let ghost p = Pending { index: e.index as int, left: e.left - quantum };
                proof {
                    assert(rest.push(p) =~= entries(
                        cur@.subrange(k as int + 1, cur.len() as int) + next@.push(
                            Entry { index: e.index, left: (e.left - quantum) as u64 },
                        ),
                    ));
                    lemma_outstanding_push(rest, p);
                }
                next.push(Entry { index: e.index, left: e.left - quantum });
            }
            proof {
                assert(slices(slots@) =~= slices(old_slots).push(slice_of(slots[slots.len() - 1])));
                assert(entries(cur@.subrange(k as int + 1, cur.len() as int) + next@)
                    =~= if e.left > quantum {
                    rest.push(Pending { index: e.index as int, left: e.left - quantum })
                } else {
                    rest
                });
                assert(slices(slots@) + rotate(
                    quantum as int,
                    entries(cur@.subrange(k as int + 1, cur.len() as int) + next@),
                    clock as int,
                ) =~= slices(old_slots) + rotate(quantum as int, q, old_clock as int));
            }
            k += 1;
        }
        proof {
            assert(cur@.subrange(k as int, cur.len() as int) + next@ =~= next@);
            lemma_outstanding_nonneg(entries(next@));
        }
        cur = next;
    }
    proof {
        assert(slices(slots@) =~= whole);
    }
    slots
}

fn check_input(ps: &Vec<Process>) -> (r: Option<ScheduleError>)
    ensures
        r == input_error(ps@),
{
    if ps.len() == 0 {
        return Some(ScheduleError::EmptyProcessSet);
    }
    let mut k: usize = 0;
    while k < ps.len()
        invariant
            k <= ps.len(),
            forall|x: int| 0 <= x < k ==> #[trigger] ps[x].burst_duration > 0,
        decreases ps.len() - k,
    {
        if ps[k].burst_duration == 0 {
            assert(has_zero_burst(ps@));
            return Some(ScheduleError::ZeroBurst);
        }
        k += 1;
    }
    None
}

fn to_logs(ps: &Vec<Process>, slots: &Vec<Slot>) -> (logs: Vec<ExecutionLog>)
    requires
        forall|k: int| 0 <= k < slots.len() ==> (#[trigger] slots[k]).index < ps.len(),
    ensures
        logs@ == logs_of(ps@, slices(slots@)),
{
    let mut logs: Vec<ExecutionLog> = Vec::new();
    let mut k: usize = 0;
    while k < slots.len()
        invariant
            k <= slots.len(),
            forall|x: int| 0 <= x < slots.len() ==> (#[trigger] slots[x]).index < ps.len(),
            logs@ =~= logs_of(ps@, slices(slots@.subrange(0, k as int))),
        decreases slots.len() - k,
    {
        let s = &slots[k];
        logs.push(ExecutionLog { pid: ps[s.index].id.clone(), start_time: s.start, end_time: s.end });
        k += 1;
        assert(logs@ =~= logs_of(ps@, slices(slots@.subrange(0, k as int))));
    }
    assert(slots@.subrange(0, k as int) =~= slots@);
    logs
}

fn run_non_preemptive(rule: Rule, ps: &Vec<Process>) -> (r: Result<Vec<ExecutionLog>, ScheduleError>)
    requires
        fits(ps@),
    ensures
        match r {
            Ok(logs) => input_error(ps@) is None && logs@ == logs_of(
                ps@,
                non_preemptive(rule, ps@),
            ),
            Err(e) => input_error(ps@) == Some(e),
        },
{
    match check_input(ps) {
        Some(e) => Err(e),
        None => {
            let slots = dispatch_slots(rule, ps);
            Ok(to_logs(ps, &slots))
        },
    }
}

/// A scheduling policy: it turns a process set into a timeline of CPU slices.
pub trait Scheduling {
    /// The timeline that this policy gives `ps`.
    spec fn timeline(&self, ps: Seq<Process>) -> Seq<Slice>;

    /// Why this policy refuses `ps`, if it does.
    spec fn refusal(&self, ps: Seq<Process>) -> Option<ScheduleError>;

    /// Schedules `processes` without changing them: the slices of the policy's timeline
    /// in order, or the reason for refusing the input.
    fn schedule(&self, processes: &Vec<Process>) -> (r: Result<Vec<ExecutionLog>, ScheduleError>)
        requires
            fits(processes@),
        ensures
            match r {
                Ok(logs) => self.refusal(processes@) is None && logs@ == logs_of(
                    processes@,
                    self.timeline(processes@),
                ),
                Err(e) => self.refusal(processes@) == Some(e),
            },
    ;
}

/// Preemptive round robin: each turn runs for at most `quantum` ticks.
pub struct RoundRobin {
    pub quantum: u64,
}

/// Non-preemptive, in order of arrival.
pub struct FirstComeFirstServed;

/// Non-preemptive, shortest burst among the arrived processes first.
pub struct ShortestJobFirst;

/// Non-preemptive, smallest priority value among the arrived processes first.
pub struct Priority;

impl Scheduling for RoundRobin {
    open spec fn timeline(&self, ps: Seq<Process>) -> Seq<Slice> {
        round_robin(self.quantum as int, ps)
    }

    open spec fn refusal(&self, ps: Seq<Process>) -> Option<ScheduleError> {
        rotation_error(self.quantum, ps)
    }

    fn schedule(&self, processes: &Vec<Process>) -> (r: Result<Vec<ExecutionLog>, ScheduleError>) {
        if self.quantum == 0 {
            return Err(ScheduleError::ZeroQuantum);
        }
        match check_input(processes) {
            Some(e) => Err(e),
            None => {
                let order = dispatch_slots(Rule::ArrivalOrder, processes);
                proof {
                    assert forall|k: int| 0 <= k < processes.len() implies #[trigger] processes[
                        k
                    ].burst_duration > 0 by {
                        if processes[k].burst_duration == 0 {
                            assert(has_zero_burst(processes@));
                        }
                    }
                }
                let slots = rotate_slots(self.quantum, processes, &order);
                Ok(to_logs(processes, &slots))
            },
        }
    }
}

impl Scheduling for FirstComeFirstServed {
    open spec fn timeline(&self, ps: Seq<Process>) -> Seq<Slice> {
        non_preemptive(Rule::ArrivalOrder, ps)
    }

    open spec fn refusal(&self, ps: Seq<Process>) -> Option<ScheduleError> {
        input_error(ps)
    }

    fn schedule(&self, processes: &Vec<Process>) -> (r: Result<Vec<ExecutionLog>, ScheduleError>) {
        run_non_preemptive(Rule::ArrivalOrder, processes)
    }
}

impl Scheduling for ShortestJobFirst {
    open spec fn timeline(&self, ps: Seq<Process>) -> Seq<Slice> {
        non_preemptive(Rule::ShortestBurst, ps)
    }

    open spec fn refusal(&self, ps: Seq<Process>) -> Option<ScheduleError> {
        input_error(ps)
    }

    fn schedule(&self, processes: &Vec<Process>) -> (r: Result<Vec<ExecutionLog>, ScheduleError>) {
        run_non_preemptive(Rule::ShortestBurst, processes)
    }
}

impl Scheduling for Priority {
    open spec fn timeline(&self, ps: Seq<Process>) -> Seq<Slice> {
        non_preemptive(Rule::HighestPriority, ps)
    }

    open spec fn refusal(&self, ps: Seq<Process>) -> Option<ScheduleError> {
        input_error(ps)
    }

    fn schedule(&self, processes: &Vec<Process>) -> (r: Result<Vec<ExecutionLog>, ScheduleError>) {
        run_non_preemptive(Rule::HighestPriority, processes)
    }
}

} // verus!
