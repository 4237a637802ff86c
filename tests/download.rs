use pawash::download::Progress;

#[test]
fn progress_counts_chunks() {
    let mut p = Progress::new(100);
    assert_eq!(p.advance(30), 30);
    assert_eq!(p.advance(50), 80);
    assert_eq!(p.downloaded, 80);
}

#[test]
fn progress_stops_at_total() {
    let mut p = Progress::new(100);
    p.advance(90);
    assert_eq!(p.advance(25), 100);
    assert_eq!(p.advance(u64::MAX), 100);
}

#[test]
fn progress_of_empty_download() {
    let mut p = Progress::new(0);
    assert_eq!(p.advance(10), 0);
}
