use brocard::brocard::broker::{BrocardBroker, BrokerState, BrokerStep, ConfigError};
use brocard::brocard::candidate::BrocardCandidate;
use brocard::brocard::report::BrocardReport;
use brocard::brocard::span::BrocardSpan;
use brocard::math::legendre::LegendreSymbol;
use brocard::montgomery::Space;

fn solution(n: u128) -> BrocardCandidate {
    BrocardCandidate::Solution(n)
}

fn miss(candidate: u128, passed: usize) -> BrocardCandidate {
    BrocardCandidate::Nonsolution { candidate, passed }
}

/// The outcome of one candidate with the factorial computed afresh.
fn bootstrap(candidate: u128, primes: &[u128]) -> BrocardCandidate {
    for (i, p) in primes.iter().enumerate() {
        let space = Space::new(*p, 64);
        let value = space.factorial(candidate) + 1;
        if space.legendre(value) == LegendreSymbol::Nonresidue {
            return miss(candidate, i);
        }
    }
    solution(candidate)
}

fn report_of(candidates: Vec<BrocardCandidate>, primes: Vec<u128>, duration: u128) -> BrocardReport {
    let mut report = BrocardReport::new(primes);
    for c in candidates {
        report.push(c);
    }
    report.duration = duration;
    report
}

#[test]
fn candidate_tells_its_kind() {
    let s = solution(4);
    assert!(s.is_solution());
    assert!(!s.is_nonsolution());
    assert_eq!(s.passed(), None);
    let n = miss(6, 3);
    assert!(!n.is_solution());
    assert!(n.is_nonsolution());
    assert_eq!(n.passed(), Some(3));
    assert_eq!(miss(6, 0).passed(), Some(0));
}

#[test]
fn report_collects_in_order() {
    let mut report = BrocardReport::new(vec![11, 13]);
    assert!(report.candidates.is_empty());
    assert_eq!(report.primes, vec![11, 13]);
    assert_eq!(report.duration, 0);
    report.push(miss(2, 0));
    report.push(solution(4));
    report.push(miss(3, 1));
    assert_eq!(report.candidates, vec![miss(2, 0), solution(4), miss(3, 1)]);
    let stamped = report.finish().duration;
    assert_eq!(stamped, report.duration);
    assert_eq!(report.candidates, vec![miss(2, 0), solution(4), miss(3, 1)]);
    assert_eq!(report.primes, vec![11, 13]);
    // A later stamp is no earlier.
    assert!(report.finish().duration >= stamped);
    let copy = report.clone();
    assert_eq!(copy, report);
}

#[test]
fn report_stamp_sets_the_duration() {
    let mut report = BrocardReport::new(vec![11, 13]);
    report.push(miss(2, 0));
    report.push(solution(4));
    assert_eq!(report.stamp(1_500).duration, 1_500);
    assert_eq!(report.duration, 1_500);
    // A later stamp overwrites an earlier one, also with a smaller number.
    report.stamp(7);
    assert_eq!(report.duration, 7);
    report.stamp(0);
    assert_eq!(report.duration, 0);
    assert_eq!(report.candidates, vec![miss(2, 0), solution(4)]);
    assert_eq!(report.primes, vec![11, 13]);
}

#[test]
fn report_summary_counts_and_finds_the_nearest_miss() {
    let report = report_of(
        vec![miss(2, 2), miss(3, 0), solution(4), solution(5), miss(6, 4), miss(8, 4), miss(9, 1)],
        vec![11, 13, 17, 19, 23],
        0,
    );
    let sum = report.summary();
    assert_eq!(sum.total, 7);
    assert_eq!(sum.solutions, 2);
    // Of two misses with the same count the first stands.
    assert_eq!(sum.best_candidate, 6);
    assert_eq!(sum.best_passed, 4);

    let none = report_of(vec![miss(7, 0), solution(8)], vec![3], 0).summary();
    assert_eq!((none.total, none.solutions, none.best_candidate, none.best_passed), (2, 1, 0, 0));
    let empty = report_of(vec![], vec![], 0).summary();
    assert_eq!((empty.total, empty.solutions, empty.best_candidate, empty.best_passed), (0, 0, 0, 0));
}

#[test]
fn report_text_has_the_stable_format() {
    let report = report_of(
        vec![
            miss(2, 2),
            miss(3, 0),
            solution(4),
            solution(5),
            miss(6, 0),
            solution(7),
            miss(8, 0),
            miss(9, 0),
            miss(10, 1),
        ],
        vec![11, 13, 17, 19, 23],
        5,
    );
    assert_eq!(report.to_text(), b"S:4\nS:5\nS:7\nN:9,M:2,2\nP:11,13,17,19,23,\n".to_vec());

    let empty = report_of(vec![], vec![], 0);
    assert_eq!(empty.to_text(), b"N:0,M:0,0\nP:\n".to_vec());

    let large = report_of(vec![solution(u128::MAX), miss(100, 60), solution(0)], vec![u128::MAX], 0);
    assert_eq!(
        large.to_text(),
        b"S:340282366920938463463374607431768211455\nS:0\nN:3,M:100,60\nP:340282366920938463463374607431768211455,\n"
            .to_vec()
    );
}

#[test]
fn span_validity() {
    assert!(BrocardSpan::new(2, 8, vec![11, 13]).is_valid());
    assert!(BrocardSpan::new(2, 8, vec![]).is_valid());
    assert!(BrocardSpan::new(u128::MAX - 8, 8, vec![11]).is_valid());
    // The last candidate must fit, and every prime must be a valid modulus.
    assert!(!BrocardSpan::new(u128::MAX - 8, 9, vec![11]).is_valid());
    assert!(!BrocardSpan::new(2, 8, vec![11, 2]).is_valid());
    assert!(!BrocardSpan::new(2, 8, vec![11, 15, 1]).is_valid());
    assert!(!BrocardSpan::new(2, 8, vec![(1 << 63) + 1]).is_valid());
    assert!(BrocardSpan::new(2, 8, vec![(1 << 63) - 1]).is_valid());
}

#[test]
fn span_solver_records_partial_pass_counts() {
    let primes = vec![11, 13, 17, 19, 23];
    let report = BrocardSpan::new(2, 8, primes.clone()).solve();
    assert_eq!(report.primes, primes);
    assert_eq!(
        report.candidates,
        vec![
            miss(2, 2),
            miss(3, 0),
            solution(4),
            solution(5),
            miss(6, 0),
            solution(7),
            miss(8, 0),
            miss(9, 0),
            miss(10, 1),
        ]
    );
    assert!(report
        .candidates
        .iter()
        .any(|c| matches!(c, BrocardCandidate::Nonsolution { passed, .. } if *passed < primes.len())));
    assert!(report
        .candidates
        .iter()
        .any(|c| matches!(c, BrocardCandidate::Nonsolution { passed, .. } if *passed > 0)));
}

#[test]
fn span_solver_on_larger_primes() {
    let report = BrocardSpan::new(2, 8, vec![101, 103, 107, 109, 113]).solve();
    assert_eq!(
        report.candidates,
        vec![
            miss(2, 0),
            miss(3, 0),
            solution(4),
            solution(5),
            miss(6, 3),
            solution(7),
            miss(8, 1),
            miss(9, 0),
            miss(10, 0),
        ]
    );
}

#[test]
fn span_solver_refuses_what_it_cannot_solve() {
    assert!(BrocardSpan::new(2, 8, vec![11, 2]).try_solve().is_none());
    assert!(BrocardSpan::new(u128::MAX, 1, vec![11]).try_solve().is_none());
    let solved = BrocardSpan::new(4, 1, vec![11, 13]).try_solve();
    assert_eq!(solved.map(|report| report.candidates), Some(vec![solution(4), solution(5)]));
}

#[test]
fn span_solver_without_primes_keeps_every_candidate() {
    let report = BrocardSpan::new(5, 2, vec![]).solve();
    assert_eq!(report.candidates, vec![solution(5), solution(6), solution(7)]);
}

#[test]
fn span_of_zero_has_one_outcome() {
    let report = BrocardSpan::new(7, 0, vec![11, 13, 17]).solve();
    assert_eq!(report.candidates, vec![solution(7)]);
    let report = BrocardSpan::new(6, 0, vec![11, 13, 17]).solve();
    assert_eq!(report.candidates, vec![miss(6, 0)]);
    let report = BrocardSpan::new(0, 0, vec![3]).solve();
    assert_eq!(report.candidates.len(), 1);
    assert_eq!(report.candidates[0], bootstrap(0, &[3]));
}

#[test]
fn incremental_update_matches_bootstrap() {
    let primes: Vec<u128> = vec![1009, 1013, 1019, 1021, 1031, 1033, 1039, 1049];
    let start: u128 = 40;
    let span: u128 = 60;
    let report = BrocardSpan::new(start, span, primes.clone()).solve();
    assert_eq!(report.candidates.len(), 61);
    for (k, outcome) in report.candidates.iter().enumerate() {
        assert_eq!(*outcome, bootstrap(start + k as u128, &primes));
    }
}

#[test]
fn broker_configuration_validity() {
    assert!(BrocardBroker::is_valid_config(2, 100, 10, 1));
    assert!(BrocardBroker::is_valid_config(2, 100, 100, 1));
    // The chunk must be above zero and fit the span; the target above zero.
    assert!(!BrocardBroker::is_valid_config(2, 100, 101, 1));
    assert!(!BrocardBroker::is_valid_config(2, 100, 0, 1));
    assert!(!BrocardBroker::is_valid_config(2, 100, 10, 0));
    // The range must leave room for one chunk beyond its end.
    assert!(!BrocardBroker::is_valid_config(u128::MAX - 100, 100, 10, 1));
    assert!(!BrocardBroker::is_valid_config(u128::MAX, 100, 10, 1));
    assert!(BrocardBroker::is_valid_config(u128::MAX - 100 - usize::MAX as u128, 100, 10, 1));
}

#[test]
fn broker_starts_with_one_worker() {
    let mut broker = BrocardBroker::new(2, 100, 10, 1_000);
    let fresh = BrokerState {
        start: 2,
        span: 100,
        chunk_size: 10,
        target_time: 1_000,
        workers: 1,
        next_start: 2,
        active_jobs: 0,
        started_jobs: 0,
        total_checked: 0,
        backoff: 1,
    };
    assert_eq!(broker.state(), fresh);
    broker.begin(4);
    assert_eq!(broker.state(), BrokerState { workers: 4, backoff: 4, ..fresh });
}

#[test]
fn broker_dispatches_until_saturated_and_drains() {
    let mut broker = BrocardBroker::new(2, 25, 10, 1_000);
    broker.begin(2);
    let first = match broker.next_step(3) {
        BrokerStep::Dispatch(chunk) => chunk.solve(),
        _ => panic!("the first step hands out a chunk"),
    };
    // The chunk holds the candidates 2..=12 and the primes above 12.
    assert_eq!(first.primes, vec![13, 17, 19]);
    assert_eq!(first.candidates.len(), 11);
    assert_eq!(first.candidates[0], bootstrap(2, &[13, 17, 19]));
    assert_eq!(first.candidates[10], bootstrap(12, &[13, 17, 19]));
    let st = broker.state();
    assert_eq!((st.next_start, st.active_jobs, st.started_jobs), (12, 1, 1));

    let second = match broker.next_step(3) {
        BrokerStep::Dispatch(chunk) => chunk.solve(),
        _ => panic!("the second step hands out a chunk"),
    };
    assert_eq!(second.primes, vec![23, 29, 31]);
    assert_eq!(second.candidates[0], bootstrap(12, &[23, 29, 31]));
    let st = broker.state();
    assert_eq!((st.next_start, st.active_jobs, st.started_jobs), (22, 2, 2));

    // Both workers are busy.
    assert!(matches!(broker.next_step(3), BrokerStep::Await));
    assert_eq!(broker.state(), st);

    let sum = broker.record(&report_of(first.candidates.clone(), first.primes.clone(), 1_000));
    assert_eq!(sum.total, 11);
    let st = broker.state();
    assert_eq!((st.active_jobs, st.total_checked, st.chunk_size, st.backoff), (1, 11, 10, 1));

    // The third chunk starts at 22, within 2..=27; the fourth would start at 32.
    assert!(matches!(broker.next_step(3), BrokerStep::Dispatch(_)));
    assert_eq!(broker.state().next_start, 32);
    assert!(matches!(broker.next_step(3), BrokerStep::Await));
    broker.record(&report_of(vec![], vec![], 1_000));
    assert!(matches!(broker.next_step(3), BrokerStep::Await));
    broker.record(&report_of(vec![], vec![], 1_000));
    assert_eq!(broker.state().active_jobs, 0);
    assert!(matches!(broker.next_step(3), BrokerStep::Finished));
    assert!(matches!(broker.next_step(3), BrokerStep::Finished));
    assert_eq!(broker.state().started_jobs, 3);
}

#[test]
fn broker_dispatches_a_chunk_that_starts_on_the_last_candidate() {
    let mut broker = BrocardBroker::new(0, 10, 10, 1_000);
    assert!(matches!(broker.next_step(1), BrokerStep::Dispatch(_)));
    broker.record(&report_of(vec![], vec![], 1_000));
    // The next chunk starts at 10, the last candidate of the range.
    let report = match broker.next_step(1) {
        BrokerStep::Dispatch(chunk) => chunk.solve(),
        _ => panic!("a chunk that starts within the range is handed out"),
    };
    assert_eq!(report.candidates.len(), 11);
    assert_eq!(report.primes, vec![23]);
    broker.record(&report);
    assert!(matches!(broker.next_step(1), BrokerStep::Finished));
}

#[test]
fn broker_stalls_where_no_prime_is_a_valid_modulus() {
    // Every prime above 2^63 is too large for the solver's spaces.
    let mut broker = BrocardBroker::new(1 << 63, 100, 10, 1_000);
    let before = broker.state();
    assert!(matches!(broker.next_step(1), BrokerStep::Stalled));
    assert_eq!(broker.state(), before);
}

#[test]
fn broker_adjusts_the_chunk_size() {
    let mut broker = BrocardBroker::new(0, 1_000_000, 100, 1_000);
    broker.begin(2);
    let mut feed = |broker: &mut BrocardBroker, duration: u128| {
        assert!(matches!(broker.next_step(0), BrokerStep::Dispatch(_)));
        broker.record(&report_of(vec![miss(1, 0)], vec![], duration));
        let st = broker.state();
        (st.chunk_size, st.backoff)
    };
    // The damping counter starts at the number of workers and runs down.
    assert_eq!(feed(&mut broker, 5_000), (100, 1));
    assert_eq!(feed(&mut broker, 5_000), (100, 0));
    // Too slow: half the size, and the counter is set again.
    assert_eq!(feed(&mut broker, 5_000), (50, 2));
    assert_eq!(feed(&mut broker, 10), (50, 1));
    assert_eq!(feed(&mut broker, 10), (50, 0));
    // Too fast: three times the size.
    assert_eq!(feed(&mut broker, 10), (150, 2));
    assert_eq!(feed(&mut broker, 1_000), (150, 1));
    assert_eq!(feed(&mut broker, 1_000), (150, 0));
    // Within 2% of the target, bounds included: nothing changes.
    assert_eq!(feed(&mut broker, 1_000), (150, 0));
    assert_eq!(feed(&mut broker, 1_020), (150, 0));
    assert_eq!(feed(&mut broker, 980), (150, 0));
    // Just beyond 2%.
    assert_eq!(feed(&mut broker, 1_021), (75, 2));
    assert_eq!(feed(&mut broker, 979), (75, 1));
    assert_eq!(feed(&mut broker, 979), (75, 0));
    assert_eq!(feed(&mut broker, 979), (225, 2));
    assert_eq!(broker.state().total_checked, 15);
}

#[test]
fn broker_keeps_the_chunk_size_within_bounds() {
    let mut broker = BrocardBroker::new(0, 1_000_000, 3, 1_000);
    let mut feed = |broker: &mut BrocardBroker, duration: u128| {
        assert!(matches!(broker.next_step(0), BrokerStep::Dispatch(_)));
        broker.record(&report_of(vec![], vec![], duration));
        broker.state().chunk_size
    };
    assert_eq!(feed(&mut broker, 9_000), 3);
    assert_eq!(feed(&mut broker, 9_000), 1);
    assert_eq!(feed(&mut broker, 9_000), 1);
    // A chunk of one candidate is never halved away.
    assert_eq!(feed(&mut broker, 9_000), 1);
    assert_eq!(feed(&mut broker, 9_000), 1);
    assert_eq!(feed(&mut broker, 9_000), 1);
}

#[test]
fn broker_converges_on_durations_proportional_to_the_chunk_size() {
    // Each candidate costs 1000 ns and the target is 100 000 ns: a chunk of
    // 98 to 102 candidates is on target.
    let target: u128 = 100_000;
    let cost: u128 = 1_000;
    let mut broker = BrocardBroker::new(0, 1 << 40, 1, target);
    let mut reports = 0;
    loop {
        let size = broker.state().chunk_size as u128;
        let duration = size * cost;
        if duration.abs_diff(target) <= target / 50 {
            break;
        }
        assert!(reports < 40, "the chunk size settles within forty reports");
        assert!(matches!(broker.next_step(0), BrokerStep::Dispatch(_)));
        broker.record(&report_of(vec![], vec![], duration));
        reports += 1;
    }
    assert_eq!(broker.state().chunk_size, 100);
    assert_eq!(reports, 28);
    // On target the size stays.
    for _ in 0..10 {
        assert!(matches!(broker.next_step(0), BrokerStep::Dispatch(_)));
        broker.record(&report_of(vec![], vec![], 100 * cost));
        assert_eq!(broker.state().chunk_size, 100);
    }
}

#[test]
fn a_broker_is_refused_with_its_reason() {
    let refused = |start: u128, span: u128, chunk_size: usize, target_time: u128| {
        BrocardBroker::try_new(start, span, chunk_size, target_time).err()
    };
    assert_eq!(refused(2, 100, 101, 1), Some(ConfigError::ChunkExceedsSpan));
    assert_eq!(refused(2, 100, 101, 0), Some(ConfigError::ChunkExceedsSpan));
    assert_eq!(refused(2, 100, 10, 0), Some(ConfigError::ZeroTargetTime));
    assert_eq!(refused(2, 100, 0, 0), Some(ConfigError::ZeroTargetTime));
    assert_eq!(refused(2, 100, 0, 1), Some(ConfigError::ZeroChunkSize));
    assert_eq!(refused(u128::MAX - 100, 100, 10, 1), Some(ConfigError::RangeTooLarge));
    assert_eq!(refused(u128::MAX, 100, 10, 1), Some(ConfigError::RangeTooLarge));
    assert_eq!(refused(2, 100, 100, 1), None);
    let broker = BrocardBroker::try_new(2, 100, 10, 1_000).ok().unwrap();
    assert_eq!(broker.state(), BrocardBroker::new(2, 100, 10, 1_000).state());
}
