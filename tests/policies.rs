use os_web_sim::model::{ExecutionLog, Process, ScheduleError};
use os_web_sim::scheduling::{
    FirstComeFirstServed, Priority, RoundRobin, Scheduling, ShortestJobFirst,
};

fn process(id: &str, arrival_time: u64, burst_duration: u64, priority: u32) -> Process {
    Process { id: id.to_string(), arrival_time, burst_duration, priority }
}

fn three_at_zero() -> Vec<Process> {
    vec![process("P1", 0, 5, 1), process("P2", 0, 3, 2), process("P3", 0, 6, 3)]
}

fn triples(logs: &[ExecutionLog]) -> Vec<(String, u64, u64)> {
    logs.iter().map(|l| (l.pid.clone(), l.start_time, l.end_time)).collect()
}

fn expect(items: &[(&str, u64, u64)]) -> Vec<(String, u64, u64)> {
    items.iter().map(|(p, s, e)| (p.to_string(), *s, *e)).collect()
}

#[test]
fn fcfs_three_at_zero() {
    let logs = FirstComeFirstServed.schedule(&three_at_zero()).unwrap();
    assert_eq!(triples(&logs), expect(&[("P1", 0, 5), ("P2", 5, 8), ("P3", 8, 14)]));
}

#[test]
fn sjf_three_at_zero() {
    let logs = ShortestJobFirst.schedule(&three_at_zero()).unwrap();
    assert_eq!(triples(&logs), expect(&[("P2", 0, 3), ("P1", 3, 8), ("P3", 8, 14)]));
}

#[test]
fn round_robin_three_at_zero() {
    let logs = RoundRobin { quantum: 2 }.schedule(&three_at_zero()).unwrap();
    assert_eq!(
        triples(&logs),
        expect(&[
            ("P1", 0, 2),
            ("P2", 2, 4),
            ("P3", 4, 6),
            ("P1", 6, 8),
            ("P2", 8, 9),
            ("P3", 9, 11),
            ("P1", 11, 12),
            ("P3", 12, 14),
        ])
    );
}

#[test]
fn priority_three_at_zero() {
    let logs = Priority.schedule(&three_at_zero()).unwrap();
    assert_eq!(triples(&logs), expect(&[("P1", 0, 5), ("P2", 5, 8), ("P3", 8, 14)]));
}

#[test]
fn sjf_idle_gap() {
    let ps = vec![process("P1", 0, 2, 1), process("P2", 10, 1, 1)];
    let logs = ShortestJobFirst.schedule(&ps).unwrap();
    assert_eq!(triples(&logs), expect(&[("P1", 0, 2), ("P2", 10, 11)]));
}

#[test]
fn priority_idle_gap() {
    let ps = vec![process("P1", 0, 2, 1), process("P2", 10, 1, 1)];
    let logs = Priority.schedule(&ps).unwrap();
    assert_eq!(triples(&logs), expect(&[("P1", 0, 2), ("P2", 10, 11)]));
}

#[test]
fn fcfs_sorts_by_arrival_and_idles() {
    let ps = vec![process("B", 7, 2, 0), process("A", 3, 1, 0), process("C", 3, 2, 0)];
    let logs = FirstComeFirstServed.schedule(&ps).unwrap();
    assert_eq!(triples(&logs), expect(&[("A", 3, 4), ("C", 4, 6), ("B", 7, 9)]));
}

#[test]
fn sjf_waits_for_arrival_of_shorter_job() {
    // The short job arrives late: the long one, already ready, goes first.
    let ps = vec![process("long", 0, 8, 0), process("short", 1, 1, 0)];
    let logs = ShortestJobFirst.schedule(&ps).unwrap();
    assert_eq!(triples(&logs), expect(&[("long", 0, 8), ("short", 8, 9)]));
}

#[test]
fn sjf_ties_broken_by_arrival_then_input_order() {
    let ps = vec![
        process("late", 2, 3, 0),
        process("first", 0, 4, 0),
        process("x", 1, 3, 0),
        process("y", 1, 3, 0),
    ];
    let logs = ShortestJobFirst.schedule(&ps).unwrap();
    assert_eq!(
        triples(&logs),
        expect(&[("first", 0, 4), ("x", 4, 7), ("y", 7, 10), ("late", 10, 13)])
    );
}

#[test]
fn priority_prefers_lower_value() {
    let ps = vec![process("a", 0, 1, 5), process("b", 0, 1, 2), process("c", 0, 1, 2)];
    let logs = Priority.schedule(&ps).unwrap();
    assert_eq!(triples(&logs), expect(&[("b", 0, 1), ("c", 1, 2), ("a", 2, 3)]));
}

#[test]
fn round_robin_quantum_larger_than_bursts() {
    let ps = vec![process("P1", 4, 3, 0), process("P2", 2, 1, 0)];
    let logs = RoundRobin { quantum: 10 }.schedule(&ps).unwrap();
    assert_eq!(triples(&logs), expect(&[("P2", 2, 3), ("P1", 3, 6)]));
}

#[test]
fn empty_process_set_is_refused() {
    let ps: Vec<Process> = vec![];
    assert_eq!(FirstComeFirstServed.schedule(&ps).unwrap_err(), ScheduleError::EmptyProcessSet);
    assert_eq!(ShortestJobFirst.schedule(&ps).unwrap_err(), ScheduleError::EmptyProcessSet);
    assert_eq!(Priority.schedule(&ps).unwrap_err(), ScheduleError::EmptyProcessSet);
    assert_eq!(
        RoundRobin { quantum: 2 }.schedule(&ps).unwrap_err(),
        ScheduleError::EmptyProcessSet
    );
}

#[test]
fn zero_burst_is_refused() {
    let ps = vec![process("P1", 0, 2, 0), process("P2", 0, 0, 0)];
    assert_eq!(FirstComeFirstServed.schedule(&ps).unwrap_err(), ScheduleError::ZeroBurst);
    assert_eq!(RoundRobin { quantum: 1 }.schedule(&ps).unwrap_err(), ScheduleError::ZeroBurst);
}

#[test]
fn zero_quantum_is_refused() {
    assert_eq!(
        RoundRobin { quantum: 0 }.schedule(&three_at_zero()).unwrap_err(),
        ScheduleError::ZeroQuantum
    );
}

#[test]
fn schedule_twice_gives_the_same_timeline() {
    let ps = three_at_zero();
    let a = RoundRobin { quantum: 2 }.schedule(&ps).unwrap();
    let b = RoundRobin { quantum: 2 }.schedule(&ps).unwrap();
    assert_eq!(triples(&a), triples(&b));
    let c = ShortestJobFirst.schedule(&ps).unwrap();
    let d = ShortestJobFirst.schedule(&ps).unwrap();
    assert_eq!(triples(&c), triples(&d));
}

#[test]
fn work_is_conserved_and_slices_do_not_overlap() {
    let ps = vec![process("A", 5, 7, 2), process("B", 0, 3, 1), process("C", 6, 4, 0)];
    let rr = RoundRobin { quantum: 3 };
    let results = vec![
        FirstComeFirstServed.schedule(&ps).unwrap(),
        ShortestJobFirst.schedule(&ps).unwrap(),
        Priority.schedule(&ps).unwrap(),
        rr.schedule(&ps).unwrap(),
    ];
    for logs in results {
        for p in &ps {
            let work: u64 = logs
                .iter()
                .filter(|l| l.pid == p.id)
                .map(|l| l.end_time - l.start_time)
                .sum();
            assert_eq!(work, p.burst_duration);
        }
        for w in logs.windows(2) {
            assert!(w[0].end_time <= w[1].start_time);
        }
        for l in &logs {
            assert!(l.start_time < l.end_time);
        }
    }
}

#[test]
fn slices_start_after_arrival() {
    let ps = vec![process("A", 5, 7, 2), process("B", 0, 3, 1), process("C", 6, 4, 0)];
    for logs in vec![
        FirstComeFirstServed.schedule(&ps).unwrap(),
        ShortestJobFirst.schedule(&ps).unwrap(),
        Priority.schedule(&ps).unwrap(),
    ] {
        for l in &logs {
            let p = ps.iter().find(|p| p.id == l.pid).unwrap();
            assert!(l.start_time >= p.arrival_time);
        }
    }
}

#[test]
fn input_is_left_unchanged() {
    let ps = three_at_zero();
    let _ = RoundRobin { quantum: 2 }.schedule(&ps).unwrap();
    let ids: Vec<&str> = ps.iter().map(|p| p.id.as_str()).collect();
    assert_eq!(ids, vec!["P1", "P2", "P3"]);
    assert_eq!(ps[0].burst_duration, 5);
}

#[test]
fn timeline_may_end_at_the_largest_instant() {
    let ps = vec![process("late", u64::MAX - 5, 3, 0), process("later", u64::MAX - 4, 2, 0)];
    let logs = FirstComeFirstServed.schedule(&ps).unwrap();
    assert_eq!(
        triples(&logs),
        expect(&[("late", u64::MAX - 5, u64::MAX - 2), ("later", u64::MAX - 2, u64::MAX)])
    );
    let logs = RoundRobin { quantum: 1 }.schedule(&ps).unwrap();
    assert_eq!(logs.last().unwrap().end_time, u64::MAX);
    assert_eq!(logs.len(), 5);
}

#[test]
fn single_process_runs_alone() {
    let ps = vec![process("only", 9, 4, 7)];
    for logs in vec![
        FirstComeFirstServed.schedule(&ps).unwrap(),
        ShortestJobFirst.schedule(&ps).unwrap(),
        Priority.schedule(&ps).unwrap(),
        RoundRobin { quantum: 3 }.schedule(&ps).unwrap(),
    ] {
        let total: u64 = logs.iter().map(|l| l.end_time - l.start_time).sum();
        assert_eq!(total, 4);
        assert_eq!(logs[0].start_time, 9);
    }
}
