use resserve::teewriter::{first_failure, FanOut, FanOutError};

/// A sink that accepts at most the given number of bytes on each attempt.
struct Sink {
    limits: Vec<usize>,
    attempt: usize,
    got: Vec<u8>,
}

impl Sink {
    fn new(limits: Vec<usize>) -> Self {
        Sink { limits, attempt: 0, got: Vec::new() }
    }

    fn write(&mut self, buf: &[u8]) -> usize {
        let cap = self.limits.get(self.attempt).copied().unwrap_or(usize::MAX);
        self.attempt += 1;
        let n = cap.min(buf.len());
        self.got.extend_from_slice(&buf[..n]);
        n
    }
}

/// Runs one fan-out write round by round; returns the counts reported after each round.
fn run(chunk: &[u8], sinks: &mut [Sink]) -> Result<Vec<usize>, FanOutError> {
    let mut f = FanOut::new(chunk.to_vec(), sinks.len());
    let mut reports = Vec::new();
    while !f.is_done() {
        for (i, s) in sinks.iter_mut().enumerate() {
            let owed = f.owed_slice(i).to_vec();
            if owed.is_empty() {
                continue;
            }
            let n = s.write(&owed);
            f.record(i, n)?;
        }
        reports.push(f.accepted_by_all());
    }
    Ok(reports)
}

#[test]
fn short_sink_is_retried_until_synchronised() {
    let data: Vec<u8> = (0u8..10).collect();
    let mut sinks = vec![Sink::new(vec![10]), Sink::new(vec![3, 7])];
    let reports = run(&data, &mut sinks).unwrap();
    assert_eq!(reports, vec![3, 10]);
    assert_eq!(sinks[0].got, data);
    assert_eq!(sinks[1].got, data);
    assert_eq!(sinks[1].attempt, 2);
}

#[test]
fn reported_count_is_minimum_over_sinks() {
    let data = vec![7u8; 10];
    let mut f = FanOut::new(data.clone(), 3);
    assert_eq!(f.sinks(), 3);
    f.record(0, 10).unwrap();
    f.record(1, 4).unwrap();
    f.record(2, 6).unwrap();
    assert_eq!(f.accepted_by_all(), 4);
    assert!(!f.is_done());
    assert_eq!(f.owed_slice(1).len(), 6);
    assert_eq!(f.owed_slice(0).len(), 0);
    f.record(1, 6).unwrap();
    f.record(2, 4).unwrap();
    assert_eq!(f.accepted_by_all(), 10);
    assert!(f.is_done());
}

#[test]
fn sink_accepting_nothing_aborts() {
    let data = vec![1u8; 5];
    let mut sinks = vec![Sink::new(vec![5]), Sink::new(vec![0])];
    assert_eq!(run(&data, &mut sinks), Err(FanOutError::WriteZero));
}

#[test]
fn empty_chunk_is_done_at_once() {
    let f = FanOut::new(Vec::new(), 2);
    assert!(f.is_done());
    assert_eq!(f.accepted_by_all(), 0);
}

#[test]
fn many_small_writes_stay_identical() {
    let data: Vec<u8> = (0..=255u8).collect();
    let mut sinks = vec![Sink::new(vec![1; 300]), Sink::new(vec![100, 1, 50]), Sink::new(vec![])];
    run(&data, &mut sinks).unwrap();
    for s in &sinks {
        assert_eq!(s.got, data);
    }
}

#[test]
fn first_failure_surfaces_first_error() {
    let all_ok: Vec<Result<(), &str>> = vec![Ok(()), Ok(())];
    assert_eq!(first_failure(all_ok), Ok(()));
    let some: Vec<Result<(), &str>> = vec![Ok(()), Err("one"), Err("two")];
    assert_eq!(first_failure(some), Err("one"));
    let none: Vec<Result<(), &str>> = Vec::new();
    assert_eq!(first_failure(none), Ok(()));
}
