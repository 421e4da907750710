use measured::duration_millis;
use measured::metric_path;
use measured::Measured;
use measured::SortOptions;

#[test]
fn matched_pattern_is_preferred() {
    let key = metric_path(Some("/hello/{id}".to_string()), "/hello/42".to_string());
    assert_eq!(key, "/hello/{id}");
}

#[test]
fn unmatched_route_falls_back_to_literal_path() {
    let key = metric_path(None, "/no/such/route".to_string());
    assert_eq!(key, "/no/such/route");
}

#[test]
fn fallback_key_is_recorded_under_literal_path() {
    let m = Measured::new();
    let key = metric_path(None, "/no/such/route".to_string());
    m.record(key, "GET".to_string(), 2);
    assert_eq!(
        m.tsv(SortOptions::PATH),
        "PATH\tMETHOD\tCNT\tSUM\tAVG\tMAX\tMIN\n/no/such/route\tGET\t1\t2\t2\t2\t2\n"
    );
}

#[test]
fn duration_millis_truncates_submillisecond_remainder() {
    assert_eq!(duration_millis(0, 999_999), 0);
    assert_eq!(duration_millis(0, 1_000_000), 1);
    assert_eq!(duration_millis(1, 2_345_678), 1002);
    assert_eq!(duration_millis(3, 0), 3000);
}

#[test]
fn duration_millis_saturates() {
    assert_eq!(duration_millis(u64::MAX, 999_999_999), u64::MAX);
}
