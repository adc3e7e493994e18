use persistence_search::scheduler::Candidate;
use persistence_search::scheduler::Frontier;
use persistence_search::scheduler::initial_queue;
use persistence_search::search::Search;
use persistence_search::tracker::RecordTracker;
use persistence_search::tracker::Report;

#[test]
fn seeds_pop_in_value_order() {
    let mut f = initial_queue();
    for v in 1..=9u64 {
        assert_eq!(f.pop(), Some(Candidate { value: v, depth: 0 }));
    }
    assert_eq!(f.pop(), None);
}

#[test]
fn pop_prefers_depth_then_small_value() {
    let mut f = Frontier::new();
    f.push(Candidate { value: 10, depth: 0 });
    f.push(Candidate { value: 7, depth: 2 });
    f.push(Candidate { value: 3, depth: 2 });
    f.push(Candidate { value: 4, depth: 1 });
    assert_eq!(f.pop(), Some(Candidate { value: 3, depth: 2 }));
    assert_eq!(f.pop(), Some(Candidate { value: 7, depth: 2 }));
    assert_eq!(f.pop(), Some(Candidate { value: 4, depth: 1 }));
    assert_eq!(f.pop(), Some(Candidate { value: 10, depth: 0 }));
    assert_eq!(f.pop(), None);
}

#[test]
fn visited_values_are_not_requeued() {
    let mut f = Frontier::new();
    f.push(Candidate { value: 5, depth: 0 });
    f.push(Candidate { value: 5, depth: 3 });
    assert_eq!(f.pop(), Some(Candidate { value: 5, depth: 0 }));
    assert_eq!(f.pop(), None);
}

#[test]
fn first_candidate_is_always_reported() {
    let mut t = RecordTracker::new();
    let r = t.observe(Candidate { value: 1, depth: 0 });
    assert_eq!(r, Report::Record { depth: 0, value: 1 });
}

#[test]
fn tracker_follows_the_reporting_policy() {
    let mut t = RecordTracker::new();
    assert_eq!(
        t.observe(Candidate { value: 1, depth: 0 }),
        Report::Record { depth: 0, value: 1 }
    );
    // Same depth, larger value: a status line beside the record.
    assert_eq!(
        t.observe(Candidate { value: 2, depth: 0 }),
        Report::Status { best_depth: 0, best_value: 1, depth: 0, value: 2 }
    );
    // Strictly deeper: a new record.
    assert_eq!(
        t.observe(Candidate { value: 12, depth: 1 }),
        Report::Record { depth: 1, value: 12 }
    );
    // Same depth, smaller value: an improved record.
    assert_eq!(
        t.observe(Candidate { value: 11, depth: 1 }),
        Report::Record { depth: 1, value: 11 }
    );
    // Shallower than the last report: a status line, and the reported depth
    // drops back.
    assert_eq!(
        t.observe(Candidate { value: 5, depth: 0 }),
        Report::Status { best_depth: 1, best_value: 11, depth: 0, value: 5 }
    );
    // Deeper than the last report but no improvement: suppressed.
    assert_eq!(t.observe(Candidate { value: 99, depth: 1 }), Report::Silent);
}

#[test]
fn greatest_depth_never_decreases() {
    let mut t = RecordTracker::new();
    let mut last_depth = 0u32;
    let observations = [
        (1u64, 0u32),
        (9, 0),
        (26, 1),
        (12, 1),
        (3, 0),
        (999, 2),
        (4, 0),
        (77, 1),
    ];
    for (value, depth) in observations {
        t.observe(Candidate { value, depth });
        assert!(t.greatest_depth >= last_depth);
        last_depth = t.greatest_depth;
    }
}

#[test]
fn search_reports_the_first_records() {
    let mut s = Search::new();
    // The smallest seed is popped first and always reported.
    assert_eq!(s.step(), Some(Report::Record { depth: 0, value: 1 }));
    // Seed 2 is no record; it is shown beside the best one and enqueues 12.
    assert_eq!(
        s.step(),
        Some(Report::Status { best_depth: 0, best_value: 1, depth: 0, value: 2 })
    );
    // The derived 12 at depth 1 now outranks the remaining seeds.
    assert_eq!(s.step(), Some(Report::Record { depth: 1, value: 12 }));
}

#[test]
fn runs_are_reproducible() {
    let mut first: Vec<Report> = Vec::new();
    let mut second: Vec<Report> = Vec::new();
    let mut s = Search::new();
    for _ in 0..300 {
        match s.step() {
            Some(r) => first.push(r),
            None => break,
        }
    }
    let mut s = Search::new();
    for _ in 0..300 {
        match s.step() {
            Some(r) => second.push(r),
            None => break,
        }
    }
    assert_eq!(first, second);
    assert!(first.len() == 300);
}

#[test]
fn search_depth_record_is_monotone() {
    let mut s = Search::new();
    let mut best = 0u32;
    for _ in 0..500 {
        match s.step() {
            Some(Report::Record { depth, .. }) => {
                assert!(depth >= best);
                best = depth;
            }
            Some(_) => {}
            None => break,
        }
    }
    // Within 500 steps the search has found chains several steps deep.
    assert!(best >= 3);
}
