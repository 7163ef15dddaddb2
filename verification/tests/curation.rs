use run_curator::orchestrator::Orchestrator;
use run_curator::retention::RetentionSet;
use run_curator::run::Run;

fn run(score: u64, path: &[u8]) -> Run {
    Run::new(score, path.to_vec())
}

#[test]
fn scenario_capacity_two_trace() {
    let mut set = RetentionSet::new(2);

    let v = set.offer(run(5, b"runs/10.txt"));
    assert!(v.is_none());
    assert_eq!(set.len(), 1);

    let v = set.offer(run(3, b"runs/11.txt"));
    assert!(v.is_none());
    assert_eq!(set.len(), 2);

    // 8 beats the worst (3): 3's artifact goes, 8 enters.
    let v = set.offer(run(8, b"runs/12.txt"));
    let victim = v.expect("a full set must displace someone");
    assert_eq!(victim.score, 3);
    assert_eq!(victim.path, b"runs/11.txt".to_vec());
    assert_eq!(set.len(), 2);

    // 1 is worse than the new worst (5): the candidate itself goes.
    let v = set.offer(run(1, b"runs/13.txt"));
    let victim = v.expect("a losing candidate must be discarded");
    assert_eq!(victim.score, 1);
    assert_eq!(victim.path, b"runs/13.txt".to_vec());
    assert_eq!(set.len(), 2);

    let survivors = set.drain_sorted_descending();
    let scores: Vec<u64> = survivors.iter().map(|r| r.score).collect();
    assert_eq!(scores, vec![8, 5]);
    assert_eq!(survivors[0].path, b"runs/12.txt".to_vec());
    assert_eq!(survivors[1].path, b"runs/10.txt".to_vec());
}

#[test]
fn scenario_two_successes_out_of_five() {
    let mut orch = Orchestrator::new(5, 3);
    let mut failures: usize = 0;

    let outcomes: Vec<Option<Run>> = vec![
        None,
        Some(run(4, b"runs/21.txt")),
        None,
        Some(run(9, b"runs/23.txt")),
        None,
    ];
    for outcome in outcomes {
        assert!(!orch.is_done());
        if outcome.is_none() {
            failures += 1;
        }
        let victim = orch.record_attempt(outcome);
        assert!(victim.is_none());
    }
    assert!(orch.is_done());
    assert_eq!(failures, 3);

    let survivors = orch.finish();
    let scores: Vec<u64> = survivors.iter().map(|r| r.score).collect();
    assert_eq!(scores, vec![9, 4]);
}

#[test]
fn scenario_zero_successes_reports_nothing() {
    let mut orch = Orchestrator::new(4, 2);
    while !orch.is_done() {
        let victim = orch.record_attempt(None);
        assert!(victim.is_none());
    }
    let survivors = orch.finish();
    // The caller must see an explicitly empty result, not a silent list.
    assert!(survivors.is_empty());
}

#[test]
fn scenario_tie_favors_incumbent() {
    let mut set = RetentionSet::new(1);

    let v = set.offer(run(7, b"runs/31.txt"));
    assert!(v.is_none());

    // A later score-7 candidate never displaces the first.
    let v = set.offer(run(7, b"runs/32.txt"));
    let victim = v.expect("the tying candidate must be discarded");
    assert_eq!(victim.score, 7);
    assert_eq!(victim.path, b"runs/32.txt".to_vec());

    let survivors = set.drain_sorted_descending();
    assert_eq!(survivors.len(), 1);
    assert_eq!(survivors[0].score, 7);
    assert_eq!(survivors[0].path, b"runs/31.txt".to_vec());
}

#[test]
fn capacity_never_exceeded() {
    let mut set = RetentionSet::new(3);
    assert_eq!(set.capacity(), 3);
    let scores = [4u64, 1, 7, 7, 2, 9, 0, 5, 8, 6];
    for (i, &s) in scores.iter().enumerate() {
        let path = format!("runs/{}.txt", 40 + i).into_bytes();
        set.offer(Run::new(s, path));
        assert!(set.len() <= 3);
    }
    let survivors = set.drain_sorted_descending();
    let scores: Vec<u64> = survivors.iter().map(|r| r.score).collect();
    assert_eq!(scores, vec![9, 8, 7]);
}

#[test]
fn admission_strictly_greater_only() {
    let mut set = RetentionSet::new(2);
    set.offer(run(5, b"runs/50.txt"));
    set.offer(run(3, b"runs/51.txt"));
    assert_eq!(set.peek_worst(), Some(3));

    // Equal to the worst: rejected.
    let v = set.offer(run(3, b"runs/52.txt"));
    assert_eq!(v.unwrap().path, b"runs/52.txt".to_vec());
    assert_eq!(set.peek_worst(), Some(3));

    // Strictly greater than the worst: the worst is evicted.
    let v = set.offer(run(4, b"runs/53.txt"));
    assert_eq!(v.unwrap().path, b"runs/51.txt".to_vec());
    assert_eq!(set.peek_worst(), Some(4));

    let survivors = set.drain_sorted_descending();
    let scores: Vec<u64> = survivors.iter().map(|r| r.score).collect();
    assert_eq!(scores, vec![5, 4]);
}

#[test]
fn disk_mirrors_retained_set() {
    // A simulated disk: the artifact paths that currently exist.
    let mut disk: Vec<Vec<u8>> = Vec::new();
    let mut set = RetentionSet::new(2);

    let offers = [
        (5u64, b"runs/60.txt".to_vec()),
        (3, b"runs/61.txt".to_vec()),
        (8, b"runs/62.txt".to_vec()),
        (1, b"runs/63.txt".to_vec()),
        (6, b"runs/64.txt".to_vec()),
    ];
    for (score, path) in offers {
        // The worker just wrote the candidate's artifact.
        disk.push(path.clone());
        if let Some(victim) = set.offer(Run::new(score, path)) {
            // Delete exactly the displaced artifact.
            let before = disk.len();
            disk.retain(|p| *p != victim.path);
            assert_eq!(disk.len(), before - 1);
        }
        // Disk state mirrors the retained runs after every offer.
        assert_eq!(disk.len(), set.len());
    }

    let survivors = set.drain_sorted_descending();
    assert_eq!(survivors.len(), disk.len());
    for r in &survivors {
        assert!(disk.contains(&r.path));
    }
}

#[test]
fn drain_is_sorted_descending() {
    let mut set = RetentionSet::new(5);
    let scores = [2u64, 9, 4, 9, 1];
    for (i, &s) in scores.iter().enumerate() {
        let path = format!("runs/{}.txt", 70 + i).into_bytes();
        set.offer(Run::new(s, path));
    }
    let survivors = set.drain_sorted_descending();
    let scores: Vec<u64> = survivors.iter().map(|r| r.score).collect();
    assert_eq!(scores, vec![9, 9, 4, 2, 1]);
    for w in scores.windows(2) {
        assert!(w[0] >= w[1]);
    }
    for &s in &scores {
        assert!(scores[0] >= s);
    }
}

#[test]
fn peek_worst_tracks_last() {
    let mut set = RetentionSet::new(3);
    assert_eq!(set.peek_worst(), None);
    set.offer(run(6, b"runs/80.txt"));
    assert_eq!(set.peek_worst(), Some(6));
    set.offer(run(2, b"runs/81.txt"));
    assert_eq!(set.peek_worst(), Some(2));
    set.offer(run(4, b"runs/82.txt"));
    assert_eq!(set.peek_worst(), Some(2));
}
