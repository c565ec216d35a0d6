use top_logs::entry::{CombinedLogEntry, GorouterLogEntry, LogEntry, RequestLine};
use top_logs::stats::TopInfo;
use top_logs::summary::{title_text, Dimension};
use top_logs::window::Timestamp;

fn row(label: &str, count: usize) -> (String, usize) {
    (label.to_string(), count)
}

fn combined(seconds: i64, method: &str, path: &str, status: &str, agent: &str) -> LogEntry {
    LogEntry::CombinedLog(CombinedLogEntry {
        ip: "10.0.0.1".to_string(),
        timestamp: Timestamp { seconds, nanos: 0 },
        request: RequestLine::Valid {
            method: method.to_string(),
            path: path.to_string(),
            path_and_query: Some(path.to_string()),
        },
        status_code: status.to_string(),
        referrer: None,
        user_agent: Some(agent.to_string()),
    })
}

fn gorouter(seconds: i64, index: Option<u16>, response_time: Option<usize>) -> LogEntry {
    LogEntry::GorouterLog(GorouterLogEntry {
        request_host: "app.example.com".to_string(),
        timestamp: Timestamp { seconds, nanos: 0 },
        request: RequestLine::Valid {
            method: "GET".to_string(),
            path: "/".to_string(),
            path_and_query: Some("/".to_string()),
        },
        status_code: "200 OK".to_string(),
        referrer: None,
        user_agent: None,
        remote_addr: "10.0.0.1".to_string(),
        backend_addr: None,
        x_forwarded_for: vec!["10.0.0.1".to_string()],
        response_time,
        gorouter_time: None,
        app_id: None,
        app_index: index,
        x_cf_routererror: None,
    })
}

#[test]
fn summary_of_nothing_has_totals_and_no_section() {
    let top = TopInfo::new(10, false);
    let report = top.summarize(100);
    assert_eq!(report.total_requests, 0);
    assert_eq!(report.errors, 0);
    assert_eq!(report.duration.start, Timestamp { seconds: i64::MAX, nanos: u32::MAX });
    assert_eq!(report.duration.end, Timestamp { seconds: i64::MIN, nanos: 0 });
    assert!(report.sections.is_empty());
}

#[test]
fn summary_of_failures_alone_has_no_section() {
    let mut top = TopInfo::new(10, false);
    top.record_parse_failure();
    let report = top.summarize(100);
    assert_eq!(report.total_requests, 0);
    assert_eq!(report.errors, 1);
    assert!(report.sections.is_empty());
}

#[test]
fn summary_shows_the_filled_dimensions_in_their_order() {
    let mut top = TopInfo::new(2, false);
    top.record(combined(10, "GET", "/a", "200 OK", "curl"));
    top.record(combined(20, "GET", "/b", "200 OK", "curl"));
    top.record(combined(30, "POST", "/b", "500 Internal Server Error", "wget"));
    top.record(combined(40, "GET", "/b", "404 Not Found", "curl"));
    top.record(combined(50, "GET", "/c", "200 OK", "lynx"));
    top.record(combined(60, "GET", "/c", "200 OK", "wget"));
    top.record(combined(70, "GET", "/c", "200 OK", "wget"));
    top.record(combined(80, "GET", "/c", "200 OK", "wget"));
    top.record_parse_failure();
    let report = top.summarize(100);

    assert_eq!(report.total_requests, 8);
    assert_eq!(report.errors, 1);
    assert_eq!(report.duration.start, Timestamp { seconds: 10, nanos: 0 });
    assert_eq!(report.duration.end, Timestamp { seconds: 80, nanos: 0 });

    let dimensions: Vec<Dimension> = report.sections.iter().map(|s| s.dimension).collect();
    assert_eq!(
        dimensions,
        vec![
            Dimension::ResponseCodes,
            Dimension::RequestMethods,
            Dimension::RequestsNoQuery,
            Dimension::RequestsQuery,
            Dimension::UserAgents,
            Dimension::Referrers,
            Dimension::ClientIps,
        ]
    );
    let titles: Vec<&str> = report.sections.iter().map(|s| s.title.as_str()).collect();
    assert_eq!(
        titles,
        vec![
            "Response Codes:",
            "Request Methods:",
            "Top '2' Requests (no query params)",
            "Top '2' Requests (with query params)",
            "Top '2' User Agents",
            "Top '2' Referrers",
            "Top '2' Client IPs",
        ]
    );
    assert_eq!(
        report.sections[0].rows,
        vec![row("200 OK", 6), row("404 Not Found", 1), row("500 Internal Server Error", 1)]
    );
    assert_eq!(report.sections[1].rows, vec![row("GET", 7), row("POST", 1)]);
    assert_eq!(report.sections[2].rows, vec![row("/c", 4), row("/b", 3)]);
    assert_eq!(report.sections[3].rows, vec![row("/c", 4), row("/b", 3)]);
    assert_eq!(report.sections[4].rows, vec![row("wget", 4), row("curl", 3)]);
    assert_eq!(report.sections[5].rows, vec![row("<none>", 8)]);
    assert_eq!(report.sections[6].rows, vec![row("10.0.0.1", 8)]);
}

#[test]
fn summary_buckets_the_latencies() {
    let mut top = TopInfo::new(1, false);
    top.record(gorouter(1, Some(0), Some(1)));
    top.record(gorouter(2, Some(0), Some(2)));
    top.record(gorouter(3, Some(3), Some(3)));
    top.record(gorouter(4, None, None));
    let report = top.summarize(2);

    let dimensions: Vec<Dimension> = report.sections.iter().map(|s| s.dimension).collect();
    assert_eq!(
        dimensions,
        vec![
            Dimension::ResponseCodes,
            Dimension::RequestMethods,
            Dimension::RequestsNoQuery,
            Dimension::RequestsQuery,
            Dimension::UserAgents,
            Dimension::Referrers,
            Dimension::ClientIps,
            Dimension::XForwardedFors,
            Dimension::Hosts,
            Dimension::AppIndexes,
            Dimension::ResponseTimes,
            Dimension::GorouterTimes,
            Dimension::RouterErrors,
        ]
    );
    let indexes = &report.sections[9];
    assert_eq!(indexes.title, "Top '1' Application Indexes");
    assert_eq!(indexes.rows, vec![row("0", 2)]);
    let response_times = &report.sections[10];
    assert_eq!(response_times.title, "Top Response Times");
    assert_eq!(response_times.rows, vec![row("1 to 3", 2), row("3 to 4", 1), row("<none>", 1)]);
    let gorouter_times = &report.sections[11];
    assert_eq!(gorouter_times.title, "Top Gorouter Times");
    assert_eq!(gorouter_times.rows, vec![row("<none>", 4)]);
    let errors = &report.sections[12];
    assert_eq!(errors.title, "Top '1' CF Router Errors");
    assert_eq!(errors.rows, vec![row("<none>", 4)]);
}

#[test]
fn titles_name_the_row_limit() {
    assert_eq!(title_text(Dimension::ResponseCodes, 10), "Response Codes:");
    assert_eq!(title_text(Dimension::RequestMethods, 10), "Request Methods:");
    assert_eq!(title_text(Dimension::RequestsNoQuery, 10), "Top '10' Requests (no query params)");
    assert_eq!(title_text(Dimension::RequestsQuery, 10), "Top '10' Requests (with query params)");
    assert_eq!(title_text(Dimension::UserAgents, 3), "Top '3' User Agents");
    assert_eq!(title_text(Dimension::Referrers, 3), "Top '3' Referrers");
    assert_eq!(title_text(Dimension::ClientIps, 3), "Top '3' Client IPs");
    assert_eq!(
        title_text(Dimension::BackendIps, 25),
        "Top '25' Backend Address (Cells & Platform VMs)"
    );
    assert_eq!(title_text(Dimension::XForwardedFors, 0), "Top '0' X-Forwarded-For Ips");
    assert_eq!(title_text(Dimension::Hosts, 1), "Top '1' Destination Hosts");
    assert_eq!(title_text(Dimension::AppIds, 1), "Top '1' Application UUIDs");
    assert_eq!(title_text(Dimension::AppIndexes, 1), "Top '1' Application Indexes");
    assert_eq!(title_text(Dimension::ResponseTimes, 1), "Top Response Times");
    assert_eq!(title_text(Dimension::GorouterTimes, 1), "Top Gorouter Times");
    assert_eq!(title_text(Dimension::RouterErrors, 100), "Top '100' CF Router Errors");
}
