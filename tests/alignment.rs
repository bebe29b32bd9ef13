use logalign::{Event, Flow, IngestError, Log, LogLine, Registry, RegistryError, Report, ReportError};

fn registry(sources: &[(&str, &[(&str, i64)])]) -> Registry {
    let mut r = Registry::new();
    for (id, _) in sources {
        r.register(id.to_string()).unwrap();
    }
    for (id, lines) in sources {
        for (text, at) in lines.iter() {
            r.append(&id.to_string(), text.to_string(), *at).unwrap();
        }
    }
    r
}

fn texts(report: &Report) -> Vec<Vec<String>> {
    report
        .rows
        .iter()
        .map(|row| row.iter().map(|l| l.line.clone()).collect())
        .collect()
}

fn grid(rows: &[&[&str]]) -> Vec<Vec<String>> {
    rows.iter().map(|r| r.iter().map(|s| s.to_string()).collect()).collect()
}

#[test]
fn end_to_end_two_sources() {
    let mut r = registry(&[
        ("A", &[("a1", 0), ("a2", 1500)]),
        ("B", &[("b1", 500), ("b2", 2000)]),
    ]);
    let report = Report::generate(&mut r, 1000).unwrap();
    assert_eq!(report.headers, vec!["A".to_string(), "B".to_string()]);
    assert_eq!(texts(&report), grid(&[&["a1", "b1"], &["a2", "b1"]]));
    assert_eq!(report.rows[0][0].timestamp, 0);
    assert_eq!(report.rows[1][1].timestamp, 500);
    assert_eq!(report.generate_csv_content(), "A,B\na1,b1\na2,b1\n");
}

#[test]
fn lines_after_window_end_stay_undrained() {
    let mut r = registry(&[
        ("A", &[("a1", 0), ("a2", 1500)]),
        ("B", &[("b1", 500), ("b2", 2000)]),
    ]);
    Report::generate(&mut r, 1000).unwrap();
    assert_eq!(r.log(0).len(), 0);
    assert_eq!(r.log(1).len(), 1);
    assert_eq!(r.log(1).get_start_time(), Some(2000));
}

#[test]
fn row_count_follows_window_and_step() {
    let mut r = registry(&[
        ("A", &[("a0", 0), ("a1", 10000)]),
        ("B", &[("b0", 0), ("b1", 10000)]),
    ]);
    let report = Report::generate(&mut r, 3000).unwrap();
    // floor(10000 / 3000) + 1
    assert_eq!(report.rows.len(), 4);
    assert_eq!(
        texts(&report),
        grid(&[&["a0", "b0"], &["a0", "b0"], &["a0", "b0"], &["a0", "b0"]])
    );
}

#[test]
fn no_overlap_gives_headers_and_no_rows() {
    let mut r = registry(&[
        ("A", &[("a0", 0), ("a1", 100)]),
        ("B", &[("b0", 200), ("b1", 300)]),
    ]);
    let report = Report::generate(&mut r, 10).unwrap();
    assert_eq!(report.headers.len(), 2);
    assert!(report.rows.is_empty());
    assert_eq!(report.generate_csv_content(), "A,B\n");
    assert_eq!(r.log(0).len(), 2);
}

#[test]
fn single_instant_window_gives_one_row() {
    let mut r = registry(&[("A", &[("a0", 0), ("a1", 700)]), ("B", &[("b0", 700)])]);
    let report = Report::generate(&mut r, 1000).unwrap();
    assert_eq!(texts(&report), grid(&[&["a1", "b0"]]));
}

#[test]
fn last_line_exactly_at_row_time() {
    let mut r = registry(&[
        ("A", &[("a0", 0), ("a1", 1000)]),
        ("B", &[("b0", 0), ("b1", 1000)]),
    ]);
    let report = Report::generate(&mut r, 1000).unwrap();
    assert_eq!(texts(&report), grid(&[&["a0", "b0"], &["a1", "b1"]]));
    assert_eq!(r.log(0).len(), 0);
    assert_eq!(r.log(1).len(), 0);
}

#[test]
fn quiet_source_is_carried_forward() {
    let mut r = registry(&[
        ("A", &[("a0", 0), ("a1", 1000), ("a2", 2000), ("a3", 3000)]),
        ("B", &[("b0", 0), ("b1", 3000)]),
    ]);
    let report = Report::generate(&mut r, 1000).unwrap();
    assert_eq!(
        texts(&report),
        grid(&[&["a0", "b0"], &["a1", "b0"], &["a2", "b0"], &["a3", "b1"]])
    );
}

#[test]
fn later_line_in_one_step_supersedes_earlier() {
    let mut r = registry(&[
        ("A", &[("x0", 0), ("x1", 100), ("x2", 900), ("x3", 2000)]),
        ("B", &[("y0", 0), ("y1", 2000)]),
    ]);
    let report = Report::generate(&mut r, 1000).unwrap();
    assert_eq!(
        texts(&report),
        grid(&[&["x0", "y0"], &["x2", "y0"], &["x3", "y1"]])
    );
    assert!(report.rows.iter().all(|row| row[0].line != "x1"));
}

#[test]
fn equal_capture_times_keep_the_later_line() {
    let mut r = registry(&[("A", &[("p", 5), ("q", 5)]), ("B", &[("r", 5)])]);
    let report = Report::generate(&mut r, 1).unwrap();
    assert_eq!(texts(&report), grid(&[&["q", "r"]]));
}

#[test]
fn empty_source_fails_with_no_data() {
    let mut r = registry(&[("A", &[("a0", 0), ("a1", 10)]), ("B", &[]), ("C", &[])]);
    match Report::generate(&mut r, 1000) {
        Err(e) => assert_eq!(e, ReportError::NoDataForSource("B".to_string())),
        Ok(_) => panic!("expected a failure"),
    }
    assert_eq!(r.log(0).len(), 2);
}

#[test]
fn non_positive_precision_is_rejected_first() {
    let mut r = registry(&[("A", &[("a0", 0)]), ("B", &[])]);
    for p in [0i64, -1, -1000] {
        match Report::generate(&mut r, p) {
            Err(e) => assert_eq!(e, ReportError::InvalidPrecision),
            Ok(_) => panic!("expected a failure"),
        }
    }
    assert_eq!(r.log(0).len(), 1);
}

#[test]
fn no_sources_gives_an_empty_report() {
    let mut r = Registry::new();
    let report = Report::generate(&mut r, 1000).unwrap();
    assert!(report.headers.is_empty());
    assert!(report.rows.is_empty());
    assert_eq!(report.generate_csv_content(), "\n");
}

#[test]
fn step_near_the_end_of_time_does_not_overflow() {
    let end = i64::MAX;
    let mut r = registry(&[("A", &[("a0", end - 10), ("a1", end)]), ("B", &[("b0", end - 10), ("b1", end)])]);
    let report = Report::generate(&mut r, 7).unwrap();
    assert_eq!(texts(&report), grid(&[&["a0", "b0"], &["a0", "b0"]]));
}

#[test]
fn registering_twice_fails() {
    let mut r = Registry::new();
    assert_eq!(r.register("a.log".to_string()), Ok(()));
    assert_eq!(
        r.register("a.log".to_string()),
        Err(RegistryError::AlreadyRegistered("a.log".to_string()))
    );
    assert_eq!(r.len(), 1);
    assert_eq!(r.id(0), "a.log");
}

#[test]
fn appending_to_unknown_source_fails() {
    let mut r = Registry::new();
    r.register("a.log".to_string()).unwrap();
    assert_eq!(
        r.append(&"b.log".to_string(), "x".to_string(), 3),
        Err(IngestError::UnknownSource("b.log".to_string()))
    );
    assert_eq!(r.log(0).len(), 0);
}

#[test]
fn ingest_appends_and_stops() {
    let mut r = Registry::new();
    r.register("a.log".to_string()).unwrap();
    let line = Event::Line { source: "a.log".to_string(), text: "hello".to_string() };
    assert_eq!(r.ingest_at(line, 42), Ok(Flow::Continue));
    assert_eq!(r.log(0).get_end_time(), Some(42));
    let unknown = Event::Line { source: "z.log".to_string(), text: "x".to_string() };
    assert_eq!(r.ingest_at(unknown, 43), Err(IngestError::UnknownSource("z.log".to_string())));
    assert_eq!(r.ingest_at(Event::Interrupt, 44), Ok(Flow::Stop));
    assert_eq!(r.log(0).len(), 1);
}

#[test]
fn ingest_stamps_with_wall_clock() {
    let mut r = Registry::new();
    r.register("a.log".to_string()).unwrap();
    let line = Event::Line { source: "a.log".to_string(), text: "now".to_string() };
    assert_eq!(r.ingest(line), Ok(Flow::Continue));
    // 2020-01-01T00:00:00Z in milliseconds
    assert!(r.log(0).get_start_time().unwrap() > 1_577_836_800_000);
}

#[test]
fn capture_time_never_goes_back() {
    let mut log = Log::new();
    assert_eq!(log.get_start_time(), None);
    assert_eq!(log.get_end_time(), None);
    log.add_line_at("a".to_string(), 100);
    log.add_line_at("b".to_string(), 50);
    log.add_line_at("c".to_string(), 200);
    assert_eq!(log.len(), 3);
    assert_eq!(log.get_start_time(), Some(100));
    assert_eq!(log.get_end_time(), Some(200));
    let mut copy = Log::new();
    copy.add_line_at("x".to_string(), 100);
    copy.add_line_at("y".to_string(), 50);
    assert_eq!(copy.get_end_time(), Some(100));
}

#[test]
fn add_line_uses_current_time() {
    let mut log = Log::new();
    log.add_line("a".to_string());
    assert!(log.get_end_time().unwrap() > 1_577_836_800_000);
}

#[test]
fn drain_returns_last_line_up_to_time() {
    let mut log = Log::new();
    log.add_line_at("a".to_string(), 1);
    log.add_line_at("b".to_string(), 2);
    log.add_line_at("c".to_string(), 5);
    let got = log.drain_upto(3).unwrap();
    assert_eq!(got.line, "b");
    assert_eq!(got.timestamp, 2);
    assert_eq!(log.len(), 1);
    assert!(log.drain_upto(4).is_none());
    let copy: LogLine = got.duplicate();
    assert_eq!(copy.line, "b");
}
