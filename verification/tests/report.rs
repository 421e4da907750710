use measured::Measured;
use measured::SortOptions;
use measured::Store;

#[test]
fn empty_store_reports_header() {
    let m = Measured::new();
    assert_eq!(m.tsv(SortOptions::PATH), "PATH\tMETHOD\tCNT\tSUM\tAVG\tMAX\tMIN\n");
    assert_eq!(m.tsv(SortOptions::SUM), "PATH\tMETHOD\tCNT\tSUM\tAVG\tMAX\tMIN\n");
}

#[test]
fn default_store_is_empty() {
    let m: Measured = Default::default();
    assert_eq!(m.tsv(SortOptions::CNT), "PATH\tMETHOD\tCNT\tSUM\tAVG\tMAX\tMIN\n");
}

#[test]
fn empty_plain_store_reports_header() {
    let s = Store::new();
    assert_eq!(s.summarize(SortOptions::MIN), "PATH\tMETHOD\tCNT\tSUM\tAVG\tMAX\tMIN\n");
}

#[test]
fn record_summarize_round_trip() {
    let m = Measured::new();
    m.record("/x".to_string(), "GET".to_string(), 10);
    m.record("/x".to_string(), "GET".to_string(), 20);
    m.record("/x".to_string(), "GET".to_string(), 30);
    assert_eq!(
        m.tsv(SortOptions::SUM),
        "PATH\tMETHOD\tCNT\tSUM\tAVG\tMAX\tMIN\n/x\tGET\t3\t60\t20\t30\t10\n"
    );
}

#[test]
fn sort_by_sum_is_descending() {
    let m = Measured::new();
    m.record("/small".to_string(), "GET".to_string(), 50);
    m.record("/large".to_string(), "GET".to_string(), 100);
    assert_eq!(
        m.tsv(SortOptions::SUM),
        "PATH\tMETHOD\tCNT\tSUM\tAVG\tMAX\tMIN\n\
         /large\tGET\t1\t100\t100\t100\t100\n\
         /small\tGET\t1\t50\t50\t50\t50\n"
    );
}

#[test]
fn repeated_records_accumulate() {
    let m = Measured::new();
    for _ in 0..5 {
        m.record("/n".to_string(), "GET".to_string(), 7);
    }
    assert_eq!(
        m.tsv(SortOptions::CNT),
        "PATH\tMETHOD\tCNT\tSUM\tAVG\tMAX\tMIN\n/n\tGET\t5\t35\t7\t7\t7\n"
    );
}

#[test]
fn clear_resets_fully() {
    let m = Measured::new();
    m.record("/a".to_string(), "GET".to_string(), 3);
    m.record("/b".to_string(), "POST".to_string(), 4);
    m.record("/a".to_string(), "GET".to_string(), 5);
    m.clear();
    assert_eq!(m.tsv(SortOptions::PATH), "PATH\tMETHOD\tCNT\tSUM\tAVG\tMAX\tMIN\n");
    m.record("/c".to_string(), "GET".to_string(), 9);
    assert_eq!(
        m.tsv(SortOptions::PATH),
        "PATH\tMETHOD\tCNT\tSUM\tAVG\tMAX\tMIN\n/c\tGET\t1\t9\t9\t9\t9\n"
    );
}

#[test]
fn keys_are_separated() {
    let m = Measured::new();
    m.record("/a".to_string(), "GET".to_string(), 10);
    m.record("/a".to_string(), "POST".to_string(), 20);
    m.record("/b".to_string(), "GET".to_string(), 30);
    m.record("/a".to_string(), "GET".to_string(), 40);
    assert_eq!(
        m.tsv(SortOptions::SUM),
        "PATH\tMETHOD\tCNT\tSUM\tAVG\tMAX\tMIN\n\
         /a\tGET\t2\t50\t25\t40\t10\n\
         /b\tGET\t1\t30\t30\t30\t30\n\
         /a\tPOST\t1\t20\t20\t20\t20\n"
    );
}

#[test]
fn sort_by_path_is_lexicographically_descending() {
    let m = Measured::new();
    m.record("/a".to_string(), "GET".to_string(), 1);
    m.record("/c".to_string(), "GET".to_string(), 2);
    m.record("/b".to_string(), "GET".to_string(), 3);
    assert_eq!(
        m.tsv(SortOptions::PATH),
        "PATH\tMETHOD\tCNT\tSUM\tAVG\tMAX\tMIN\n\
         /c\tGET\t1\t2\t2\t2\t2\n\
         /b\tGET\t1\t3\t3\t3\t3\n\
         /a\tGET\t1\t1\t1\t1\t1\n"
    );
}

#[test]
fn sort_by_method_is_descending() {
    let m = Measured::new();
    m.record("/x".to_string(), "GET".to_string(), 1);
    m.record("/x".to_string(), "POST".to_string(), 2);
    assert_eq!(
        m.tsv(SortOptions::METHOD),
        "PATH\tMETHOD\tCNT\tSUM\tAVG\tMAX\tMIN\n\
         /x\tPOST\t1\t2\t2\t2\t2\n\
         /x\tGET\t1\t1\t1\t1\t1\n"
    );
}

#[test]
fn equal_keys_keep_first_come_order() {
    let m = Measured::new();
    m.record("/one".to_string(), "GET".to_string(), 30);
    m.record("/two".to_string(), "GET".to_string(), 30);
    assert_eq!(
        m.tsv(SortOptions::SUM),
        "PATH\tMETHOD\tCNT\tSUM\tAVG\tMAX\tMIN\n\
         /one\tGET\t1\t30\t30\t30\t30\n\
         /two\tGET\t1\t30\t30\t30\t30\n"
    );
}

#[test]
fn average_truncates() {
    let m = Measured::new();
    m.record("/t".to_string(), "GET".to_string(), 1);
    m.record("/t".to_string(), "GET".to_string(), 2);
    assert_eq!(
        m.tsv(SortOptions::AVG),
        "PATH\tMETHOD\tCNT\tSUM\tAVG\tMAX\tMIN\n/t\tGET\t2\t3\t1\t2\t1\n"
    );
}

#[test]
fn zero_duration_is_recorded() {
    let m = Measured::new();
    m.record("/z".to_string(), "GET".to_string(), 0);
    assert_eq!(
        m.tsv(SortOptions::MAX),
        "PATH\tMETHOD\tCNT\tSUM\tAVG\tMAX\tMIN\n/z\tGET\t1\t0\t0\t0\t0\n"
    );
}

#[test]
fn largest_samples_sum_without_overflow() {
    let m = Measured::new();
    m.record("/big".to_string(), "GET".to_string(), u64::MAX);
    m.record("/big".to_string(), "GET".to_string(), u64::MAX);
    assert_eq!(
        m.tsv(SortOptions::SUM),
        "PATH\tMETHOD\tCNT\tSUM\tAVG\tMAX\tMIN\n\
         /big\tGET\t2\t36893488147419103230\t18446744073709551615\t18446744073709551615\t18446744073709551615\n"
    );
}

#[test]
fn end_to_end_scenario() {
    let m = Measured::new();
    m.record("/hello/{id}".to_string(), "GET".to_string(), 5);
    m.record("/hello/{id}".to_string(), "GET".to_string(), 15);
    m.record("/status".to_string(), "GET".to_string(), 1);
    assert_eq!(
        m.tsv(SortOptions::SUM),
        "PATH\tMETHOD\tCNT\tSUM\tAVG\tMAX\tMIN\n\
         /hello/{id}\tGET\t2\t20\t10\t15\t5\n\
         /status\tGET\t1\t1\t1\t1\t1\n"
    );
}
