use run_curator::config::{attempts_config, capacity_config};
use run_curator::numbers::{dec_bytes, parse_u64};
use run_curator::report::report_line;
use run_curator::run::Run;
use run_curator::score::{extract_score, ScoreError};
use run_curator::seed::{artifact_path, next_seed, path_taken};

fn lines(raw: &[&[u8]]) -> Vec<Vec<u8>> {
    raw.iter().map(|l| l.to_vec()).collect()
}

#[test]
fn parse_plain_number() {
    assert_eq!(parse_u64(&b"123".to_vec()), Some(123));
    assert_eq!(parse_u64(&b"0".to_vec()), Some(0));
    assert_eq!(parse_u64(&b"007".to_vec()), Some(7));
}

#[test]
fn parse_at_the_limit() {
    assert_eq!(parse_u64(&b"18446744073709551615".to_vec()), Some(u64::MAX));
    assert_eq!(parse_u64(&b"18446744073709551616".to_vec()), None);
    assert_eq!(parse_u64(&b"99999999999999999999999".to_vec()), None);
}

#[test]
fn parse_rejects_non_digits() {
    assert_eq!(parse_u64(&b"".to_vec()), None);
    assert_eq!(parse_u64(&b"12a".to_vec()), None);
    assert_eq!(parse_u64(&b"-5".to_vec()), None);
    assert_eq!(parse_u64(&b" 5".to_vec()), None);
    assert_eq!(parse_u64(&b"5+".to_vec()), None);
}

#[test]
fn parse_accepts_one_leading_plus() {
    assert_eq!(parse_u64(&b"+5".to_vec()), Some(5));
    assert_eq!(parse_u64(&b"+0".to_vec()), Some(0));
    assert_eq!(parse_u64(&b"+18446744073709551615".to_vec()), Some(u64::MAX));
    assert_eq!(parse_u64(&b"+".to_vec()), None);
    assert_eq!(parse_u64(&b"++5".to_vec()), None);
}

#[test]
fn decimal_rendering() {
    assert_eq!(dec_bytes(0), b"0".to_vec());
    assert_eq!(dec_bytes(8), b"8".to_vec());
    assert_eq!(dec_bytes(10), b"10".to_vec());
    assert_eq!(dec_bytes(4294967295), b"4294967295".to_vec());
    assert_eq!(dec_bytes(u64::MAX), b"18446744073709551615".to_vec());
}

#[test]
fn score_takes_last_text_line() {
    assert_eq!(extract_score(&lines(&[b"noise", b"42", b""])), Ok(42));
    assert_eq!(extract_score(&lines(&[b"3", b"17"])), Ok(17));
    assert_eq!(extract_score(&lines(&[b"9", b"", b""])), Ok(9));
    assert_eq!(extract_score(&lines(&[b"+42"])), Ok(42));
}

#[test]
fn scenario_unparseable_last_line() {
    // The worker's last line is "abc": the run failed, nothing is scored.
    assert_eq!(
        extract_score(&lines(&[b"something", b"abc"])),
        Err(ScoreError::Unparseable)
    );
    assert_eq!(
        extract_score(&lines(&[b"12x"])),
        Err(ScoreError::Unparseable)
    );
    assert_eq!(
        extract_score(&lines(&[b"18446744073709551616"])),
        Err(ScoreError::Unparseable)
    );
}

#[test]
fn score_of_empty_artifact() {
    assert_eq!(extract_score(&lines(&[])), Err(ScoreError::Empty));
    assert_eq!(extract_score(&lines(&[b"", b""])), Err(ScoreError::Empty));
}

#[test]
fn attempts_defaults() {
    assert_eq!(attempts_config(None), 100);
    assert_eq!(attempts_config(Some(b"25".to_vec())), 25);
    assert_eq!(attempts_config(Some(b"+25".to_vec())), 25);
    assert_eq!(attempts_config(Some(b"abc".to_vec())), 10);
    assert_eq!(attempts_config(Some(b"".to_vec())), 10);
}

#[test]
fn capacity_defaults() {
    assert_eq!(capacity_config(None), 10);
    assert_eq!(capacity_config(Some(b"3".to_vec())), 3);
    assert_eq!(capacity_config(Some(b"-1".to_vec())), 10);
}

#[test]
fn artifact_path_format() {
    assert_eq!(artifact_path(1), b"runs/1.txt".to_vec());
    assert_eq!(artifact_path(0), b"runs/0.txt".to_vec());
    assert_eq!(artifact_path(4294967295), b"runs/4294967295.txt".to_vec());
}

#[test]
fn path_taken_finds_collisions() {
    let existing = vec![b"runs/5.txt".to_vec(), b"runs/77.txt".to_vec()];
    assert!(path_taken(&existing, &b"runs/77.txt".to_vec()));
    assert!(!path_taken(&existing, &b"runs/7.txt".to_vec()));
    assert!(!path_taken(&Vec::new(), &b"runs/7.txt".to_vec()));
}

#[test]
fn fresh_seed_avoids_existing_artifacts() {
    // With an empty directory any drawn seed is fresh: a single try is
    // owed to succeed.
    assert!(next_seed(&Vec::new(), 1).is_some());
    let (seed, path) = next_seed(&Vec::new(), 16).expect("a draw must land");
    assert!(seed < 1 << 32);
    assert_eq!(path, artifact_path(seed));

    // The drawn seed's path is then taken, and a later draw avoids it.
    let existing = vec![path.clone()];
    assert!(path_taken(&existing, &path));
    if let Some((s2, p2)) = next_seed(&existing, 16) {
        assert_ne!(p2, path);
        assert_eq!(p2, artifact_path(s2));
    }

    // An exhausted budget yields nothing.
    assert!(next_seed(&Vec::new(), 0).is_none());
}

#[test]
fn report_line_format() {
    let r = Run::new(8, b"runs/1.txt".to_vec());
    assert_eq!(report_line(&r), b"8pcs @runs/1.txt".to_vec());
    let r = Run::new(0, b"runs/4294967295.txt".to_vec());
    assert_eq!(report_line(&r), b"0pcs @runs/4294967295.txt".to_vec());
}
