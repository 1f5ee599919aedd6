use vstd::prelude::*;
use vstd::set::{axiom_set_choose_len, axiom_set_remove_len};
use vstd::set_lib::{lemma_int_range, lemma_len_subset, set_int_range};
use crate::model::{
    arrival_queue, dispatch, dispatch_time, first_arrival, input_error, is_first_arrival, is_pick,
    is_ready, lemma_outstanding_nonneg, lemma_outstanding_push, logs_of, non_preemptive,
    outstanding, pick, precedes, rotate, round_robin, ExecutionLog, Pending, Process, Rule,
    ScheduleError, Slice,
};
use crate::scheduling::Scheduling;

verus! {

/// The CPU time that the slices of `sl` give process `i`.
pub open spec fn work(sl: Seq<Slice>, i: int) -> int
    decreases sl.len(),
{
    if sl.len() == 0 {
        0
    } else {
        (if sl[0].index == i {
            sl[0].end - sl[0].start
        } else {
            0
        }) + work(sl.drop_first(), i)
    }
}

/// Each slice has positive length, and each ends before the next begins.
pub open spec fn sequential(sl: Seq<Slice>) -> bool {
    &&& forall|k: int| 0 <= k < sl.len() ==> (#[trigger] sl[k]).start < sl[k].end
    &&& forall|a: int, b: int|
        0 <= a < b < sl.len() ==> (#[trigger] sl[a]).end <= (#[trigger] sl[b]).start
}

/// Every slice belongs to a process of `ps`, and each process gets exactly its burst.
pub open spec fn conserves_work(ps: Seq<Process>, sl: Seq<Slice>) -> bool {
    &&& forall|k: int| 0 <= k < sl.len() ==> 0 <= (#[trigger] sl[k]).index < ps.len()
    &&& forall|i: int| 0 <= i < ps.len() ==> #[trigger] work(sl, i) == ps[i].burst_duration
}

/// No slice starts before its process has arrived.
pub open spec fn causal(ps: Seq<Process>, sl: Seq<Slice>) -> bool {
    forall|k: int|
        0 <= k < sl.len() ==> (#[trigger] sl[k]).start >= ps[sl[k].index].arrival_time
}

pub open spec fn in_range(ps: Seq<Process>, s: Set<int>) -> bool {
    forall|i: int| #[trigger] s.contains(i) ==> 0 <= i < ps.len()
}

proof fn lemma_least(rule: Rule, ps: Seq<Process>, s: Set<int>) -> (i: int)
    requires
        s.finite(),
        s.len() > 0,
        in_range(ps, s),
    ensures
        s.contains(i),
        forall|j: int| #[trigger] s.contains(j) && j != i ==> precedes(rule, ps, i, j),
    decreases s.len(),
{
    broadcast use axiom_set_choose_len, axiom_set_remove_len;

    let x = s.choose();
    let rest = s.remove(x);
    if rest.len() == 0 {
        assert forall|j: int| #[trigger] s.contains(j) && j != x implies precedes(
            rule,
            ps,
            x,
            j,
        ) by {
            assert(rest.contains(j));
        }
        x
    } else {
        let y = lemma_least(rule, ps, rest);
        if precedes(rule, ps, x, y) {
            assert forall|j: int| #[trigger] s.contains(j) && j != x implies precedes(
                rule,
                ps,
                x,
                j,
            ) by {
                if j != y {
                    assert(rest.contains(j));
                }
            }
            x
        } else {
            assert forall|j: int| #[trigger] s.contains(j) && j != y implies precedes(
                rule,
                ps,
                y,
                j,
            ) by {
                if j != x {
                    assert(rest.contains(j));
                }
            }
            y
        }
    }
}

/// Whenever processes remain, the next decision is well defined.
proof fn lemma_pick(rule: Rule, ps: Seq<Process>, rem: Set<int>, clock: int)
    requires
        rem.finite(),
        rem.len() > 0,
        in_range(ps, rem),
    ensures
        is_first_arrival(ps, rem, first_arrival(ps, rem)),
        is_pick(rule, ps, rem, dispatch_time(ps, rem, clock), pick(rule, ps, rem, dispatch_time(ps, rem, clock))),
{
    let f = lemma_least(Rule::ArrivalOrder, ps, rem);
    assert(is_first_arrival(ps, rem, ps[f].arrival_time as int));
    let a = first_arrival(ps, rem);
    let t = dispatch_time(ps, rem, clock);
    let w = choose|w: int| #[trigger] rem.contains(w) && ps[w].arrival_time == a;
    let ready = Set::new(|j: int| is_ready(ps, rem, t, j));
    lemma_len_subset(ready, rem);
    assert(ready.contains(w));
    let i = lemma_least(rule, ps, ready);
    assert forall|j: int| #[trigger] is_ready(ps, rem, t, j) && j != i implies precedes(
        rule,
        ps,
        i,
        j,
    ) by {
        assert(ready.contains(j));
    }
    assert(is_pick(rule, ps, rem, t, i));
}

/// What every non-preemptive timeline of the processes in `rem` satisfies.
proof fn lemma_dispatch(rule: Rule, ps: Seq<Process>, rem: Set<int>, clock: int)
    requires
        rem.finite(),
        in_range(ps, rem),
        input_error(ps) is None,
    ensures
        sequential(dispatch(rule, ps, rem, clock)),
        causal(ps, dispatch(rule, ps, rem, clock)),
        forall|k: int|
            0 <= k < dispatch(rule, ps, rem, clock).len() ==> rem.contains(
                (#[trigger] dispatch(rule, ps, rem, clock)[k]).index,
            ) && dispatch(rule, ps, rem, clock)[k].start >= clock,
        forall|i: int|
            #[trigger] work(dispatch(rule, ps, rem, clock), i) == if rem.contains(i) {
                ps[i].burst_duration as int
            } else {
                0
            },
    decreases rem.len(),
{
    broadcast use axiom_set_remove_len;

    let sl = dispatch(rule, ps, rem, clock);
    if rem.len() == 0 {
        assert forall|i: int| #[trigger] work(sl, i) == if rem.contains(i) {
            ps[i].burst_duration as int
        } else {
            0
        } by {
            assert(!rem.contains(i));
        }
    } else {
        lemma_pick(rule, ps, rem, clock);
        let t = dispatch_time(ps, rem, clock);
        let p = pick(rule, ps, rem, t);
        let e = t + ps[p].burst_duration;
        let tail = dispatch(rule, ps, rem.remove(p), e);
        lemma_dispatch(rule, ps, rem.remove(p), e);
        assert(sl == seq![Slice { index: p, start: t, end: e }] + tail);
        assert(sl.drop_first() =~= tail);
        assert(ps[p].burst_duration > 0);
        assert forall|k: int| 0 <= k < sl.len() implies (#[trigger] sl[k]).start < sl[k].end by {
            if k > 0 {
                assert(sl[k] == tail[k - 1]);
            }
        }
        assert forall|a: int, b: int| 0 <= a < b < sl.len() implies (#[trigger] sl[a]).end <= (
        #[trigger] sl[b]).start by {
            assert(sl[b] == tail[b - 1]);
            if a > 0 {
                assert(sl[a] == tail[a - 1]);
            }
        }
        assert forall|k: int| 0 <= k < sl.len() implies (#[trigger] sl[k]).start
            >= ps[sl[k].index].arrival_time by {
            if k > 0 {
                assert(sl[k] == tail[k - 1]);
            }
        }
        assert forall|k: int| 0 <= k < sl.len() implies rem.contains((#[trigger] sl[k]).index)
            && sl[k].start >= clock by {
            if k > 0 {
                assert(sl[k] == tail[k - 1]);
            }
        }
        assert forall|i: int| #[trigger] work(sl, i) == if rem.contains(i) {
            ps[i].burst_duration as int
        } else {
            0
        } by {
            assert(work(tail, i) == if rem.remove(p).contains(i) {
                ps[i].burst_duration as int
            } else {
                0
            });
        }
    }
}

/// Under first-come-first-served, shortest-job-first and priority scheduling, every
/// process of an accepted set gets exactly its burst, the slices follow one another
/// without overlap, and none starts before its process has arrived.
pub proof fn law_non_preemptive(rule: Rule, ps: Seq<Process>)
    requires
        input_error(ps) is None,
    ensures
        conserves_work(ps, non_preemptive(rule, ps)),
        sequential(non_preemptive(rule, ps)),
        causal(ps, non_preemptive(rule, ps)),
{
    let all = set_int_range(0, ps.len() as int);
    lemma_int_range(0, ps.len() as int);
    lemma_dispatch(rule, ps, all, 0);
    let sl = non_preemptive(rule, ps);
    assert forall|k: int| 0 <= k < sl.len() implies 0 <= (#[trigger] sl[k]).index < ps.len() by {
        assert(all.contains(sl[k].index));
    }
    assert forall|i: int| 0 <= i < ps.len() implies #[trigger] work(sl, i)
        == ps[i].burst_duration by {
        assert(all.contains(i));
    }
}

/// The work still queued for process `i`.
pub open spec fn queued(queue: Seq<Pending>, i: int) -> int
    decreases queue.len(),
{
    if queue.len() == 0 {
        0
    } else {
        (if queue[0].index == i {
            queue[0].left
        } else {
            0
        }) + queued(queue.drop_first(), i)
    }
}

proof fn lemma_queued_push(queue: Seq<Pending>, p: Pending, i: int)
    ensures
        queued(queue.push(p), i) == queued(queue, i) + if p.index == i {
            p.left
        } else {
            0
        },
    decreases queue.len(),
{
    if queue.len() == 0 {
        assert(queue.push(p).drop_first() =~= queue);
    } else {
        assert(queue.push(p).drop_first() =~= queue.drop_first().push(p));
        lemma_queued_push(queue.drop_first(), p, i);
    }
}

proof fn lemma_queued_of_order(sl: Seq<Slice>, i: int)
    ensures
        queued(arrival_queue(sl), i) == work(sl, i),
    decreases sl.len(),
{
    if sl.len() > 0 {
        assert(arrival_queue(sl).drop_first() =~= arrival_queue(sl.drop_first()));
        lemma_queued_of_order(sl.drop_first(), i);
    }
}

/// What every round-robin timeline of a queue of unfinished work satisfies.
proof fn lemma_rotate(quantum: int, queue: Seq<Pending>, clock: int, n: int)
    requires
        quantum > 0,
        forall|k: int|
            0 <= k < queue.len() ==> (#[trigger] queue[k]).left > 0 && 0 <= queue[k].index < n,
    ensures
        sequential(rotate(quantum, queue, clock)),
        forall|k: int|
            0 <= k < rotate(quantum, queue, clock).len() ==> 0 <= (#[trigger] rotate(
                quantum,
                queue,
                clock,
            )[k]).index < n && rotate(quantum, queue, clock)[k].start >= clock,
        forall|i: int| #[trigger] work(rotate(quantum, queue, clock), i) == queued(queue, i),
    decreases outstanding(queue), queue.len(),
{
    let sl = rotate(quantum, queue, clock);
    if queue.len() > 0 {
        let p = queue[0];
        let s = if p.left < quantum {
            p.left
        } else {
            quantum
        };
        let rest = queue.drop_first();
        lemma_outstanding_nonneg(rest);
        let next = if p.left > quantum {
            rest.push(Pending { index: p.index, left: p.left - quantum })
        } else {
            rest
        };
        if p.left > quantum {
            lemma_outstanding_push(rest, Pending { index: p.index, left: p.left - quantum });
        }
        assert forall|k: int| 0 <= k < next.len() implies (#[trigger] next[k]).left > 0 && 0
            <= next[k].index < n by {
            if k < rest.len() {
                assert(next[k] == queue[k + 1]);
            }
        }
        let tail = rotate(quantum, next, clock + s);
        lemma_rotate(quantum, next, clock + s, n);
        assert(sl == seq![Slice { index: p.index, start: clock, end: clock + s }] + tail);
        assert(sl.drop_first() =~= tail);
        assert forall|k: int| 0 <= k < sl.len() implies (#[trigger] sl[k]).start < sl[k].end by {
            if k > 0 {
                assert(sl[k] == tail[k - 1]);
            }
        }
        assert forall|a: int, b: int| 0 <= a < b < sl.len() implies (#[trigger] sl[a]).end <= (
        #[trigger] sl[b]).start by {
            assert(sl[b] == tail[b - 1]);
            if a > 0 {
                assert(sl[a] == tail[a - 1]);
            }
        }
        assert forall|k: int| 0 <= k < sl.len() implies 0 <= (#[trigger] sl[k]).index < n
            && sl[k].start >= clock by {
            if k > 0 {
                assert(sl[k] == tail[k - 1]);
            }
        }
        assert forall|i: int| #[trigger] work(sl, i) == queued(queue, i) by {
            assert(work(tail, i) == queued(next, i));
            if p.left > quantum {
                lemma_queued_push(rest, Pending { index: p.index, left: p.left - quantum }, i);
            }
        }
    }
}

/// Under round robin with a positive quantum, every process of an accepted set gets
/// exactly its burst, and the slices follow one another without overlap.
pub proof fn law_round_robin(quantum: int, ps: Seq<Process>)
    requires
        quantum > 0,
        input_error(ps) is None,
    ensures
        conserves_work(ps, round_robin(quantum, ps)),
        sequential(round_robin(quantum, ps)),
{
    let order = non_preemptive(Rule::ArrivalOrder, ps);
    law_non_preemptive(Rule::ArrivalOrder, ps);
    assert(work(order, 0) == ps[0].burst_duration);
    assert(ps[0].burst_duration > 0);
    assert(order.len() > 0);
    let queue = arrival_queue(order);
    assert forall|k: int| 0 <= k < queue.len() implies (#[trigger] queue[k]).left > 0 && 0
        <= queue[k].index < ps.len() by {
        assert(order[k].start < order[k].end);
        assert(0 <= order[k].index < ps.len());
    }
    lemma_rotate(quantum, queue, order[0].start, ps.len() as int);
    let sl = round_robin(quantum, ps);
    assert forall|i: int| 0 <= i < ps.len() implies #[trigger] work(sl, i)
        == ps[i].burst_duration by {
        lemma_queued_of_order(order, i);
    }
}

/// Round robin does not wait for arrivals: where every process arrives at the same
/// instant, no slice starts before its process has arrived.
pub proof fn law_round_robin_causal(quantum: int, ps: Seq<Process>)
    requires
        quantum > 0,
        input_error(ps) is None,
        forall|i: int, j: int|
            0 <= i < ps.len() && 0 <= j < ps.len() ==> (#[trigger] ps[i]).arrival_time
                == (#[trigger] ps[j]).arrival_time,
    ensures
        causal(ps, round_robin(quantum, ps)),
{
    let order = non_preemptive(Rule::ArrivalOrder, ps);
    law_non_preemptive(Rule::ArrivalOrder, ps);
    law_round_robin(quantum, ps);
    assert(work(order, 0) == ps[0].burst_duration);
    assert(order.len() > 0);
    let queue = arrival_queue(order);
    assert forall|k: int| 0 <= k < queue.len() implies (#[trigger] queue[k]).left > 0 && 0
        <= queue[k].index < ps.len() by {
        assert(order[k].start < order[k].end);
        assert(0 <= order[k].index < ps.len());
    }
    lemma_rotate(quantum, queue, order[0].start, ps.len() as int);
    let sl = round_robin(quantum, ps);
    assert(order[0].start >= ps[order[0].index].arrival_time);
    assert forall|k: int| 0 <= k < sl.len() implies (#[trigger] sl[k]).start
        >= ps[sl[k].index].arrival_time by {
        assert(ps[sl[k].index] == ps[sl[k].index]);
        assert(ps[order[0].index] == ps[order[0].index]);
    }
}

/// What `Scheduling::schedule` promises of its result `r` for `policy` and `ps`.
pub open spec fn answers<S: Scheduling>(
    policy: &S,
    ps: Seq<Process>,
    r: Result<Vec<ExecutionLog>, ScheduleError>,
) -> bool {
    match r {
        Ok(logs) => policy.refusal(ps) is None && logs@ == logs_of(ps, policy.timeline(ps)),
        Err(e) => policy.refusal(ps) == Some(e),
    }
}

/// Scheduling depends on the policy and the process set alone: two runs of one policy
/// on one process set give the same slices, or the same refusal.
pub proof fn law_deterministic<S: Scheduling>(
    policy: &S,
    ps: Seq<Process>,
    a: Result<Vec<ExecutionLog>, ScheduleError>,
    b: Result<Vec<ExecutionLog>, ScheduleError>,
)
    requires
        answers(policy, ps, a),
        answers(policy, ps, b),
    ensures
        match (a, b) {
            (Ok(x), Ok(y)) => x@ == y@,
            (Err(e), Err(f)) => e == f,
            _ => false,
        },
{
}

} // verus!
