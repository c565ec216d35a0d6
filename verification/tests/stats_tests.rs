use top_logs::entry::{
    join_chain, CloudControllerLogEntry, CombinedLogEntry, CommonLogEntry, GorouterLogEntry,
    LogEntry, RequestLine,
};
use top_logs::stats::TopInfo;
use top_logs::window::Timestamp;

fn at(seconds: i64) -> Timestamp {
    Timestamp { seconds, nanos: 0 }
}

fn get(path: &str, query: Option<&str>) -> RequestLine {
    RequestLine::Valid {
        method: "GET".to_string(),
        path: path.to_string(),
        path_and_query: query.map(|q| q.to_string()),
    }
}

fn common(seconds: i64, ip: &str, status: &str, request: RequestLine) -> LogEntry {
    LogEntry::CommonLog(CommonLogEntry {
        ip: ip.to_string(),
        timestamp: at(seconds),
        request,
        status_code: status.to_string(),
    })
}

fn combined(seconds: i64, referrer: Option<&str>, agent: Option<&str>) -> LogEntry {
    LogEntry::CombinedLog(CombinedLogEntry {
        ip: "10.0.0.1".to_string(),
        timestamp: at(seconds),
        request: get("/", Some("/")),
        status_code: "200 OK".to_string(),
        referrer: referrer.map(|r| r.to_string()),
        user_agent: agent.map(|a| a.to_string()),
    })
}

fn cloud_controller(seconds: i64, chain: &[&str], response_time: Option<usize>) -> LogEntry {
    LogEntry::CloudControllerLog(CloudControllerLogEntry {
        request_host: "api.example.com".to_string(),
        timestamp: at(seconds),
        request: get("/v2/info", Some("/v2/info")),
        status_code: "200 OK".to_string(),
        referrer: None,
        user_agent: Some("cf/6".to_string()),
        x_forwarded_for: chain.iter().map(|a| a.to_string()).collect(),
        response_time,
    })
}

fn gorouter(seconds: i64) -> GorouterLogEntry {
    GorouterLogEntry {
        request_host: "app.example.com".to_string(),
        timestamp: at(seconds),
        request: RequestLine::Valid {
            method: "PUT".to_string(),
            path: "/eureka".to_string(),
            path_and_query: Some("/eureka?status=UP".to_string()),
        },
        status_code: "404 Not Found".to_string(),
        referrer: Some("http://example.com/".to_string()),
        user_agent: Some("Java".to_string()),
        remote_addr: "10.224.20.205".to_string(),
        backend_addr: Some("10.0.1.7".to_string()),
        x_forwarded_for: vec!["10.179.113.63".to_string(), "10.0.0.9".to_string()],
        response_time: Some(0),
        gorouter_time: Some(3),
        app_id: Some("1b4ad7a6".to_string()),
        app_index: Some(2),
        x_cf_routererror: Some("endpoint_failure".to_string()),
    }
}

#[test]
fn new_collector_has_counted_nothing() {
    let top = TopInfo::new(10, true);
    assert_eq!(top.max_results, 10);
    assert!(top.ignore_parse_errors);
    assert_eq!(top.total_requests, 0);
    assert_eq!(top.errors, 0);
    assert_eq!(top.duration.start, Timestamp { seconds: i64::MAX, nanos: u32::MAX });
    assert_eq!(top.duration.end, Timestamp { seconds: i64::MIN, nanos: 0 });
    assert!(top.response_codes.is_empty());
    assert!(top.request_methods.is_empty());
    assert!(top.requests_no_query.is_empty());
    assert!(top.requests_query.is_empty());
    assert!(top.client_ips.is_empty());
    assert!(top.referrers.is_empty());
    assert!(top.user_agents.is_empty());
    assert!(top.backend_ips.is_empty());
    assert!(top.x_forwarded_fors.is_empty());
    assert!(top.hosts.is_empty());
    assert!(top.app_ids.is_empty());
    assert!(top.app_indexes.is_empty());
    assert!(top.response_times.is_empty());
    assert!(top.gorouter_times.is_empty());
    assert!(top.x_cf_routererrors.is_empty());
}

#[test]
fn total_requests_counts_the_entries_recorded() {
    let mut top = TopInfo::new(10, false);
    top.record(common(1, "10.0.0.1", "200 OK", get("/", Some("/"))));
    top.record(combined(2, None, None));
    top.record(LogEntry::GorouterLog(gorouter(3)));
    top.record(cloud_controller(4, &[], None));
    top.record(common(5, "10.0.0.1", "500 Internal Server Error", RequestLine::InvalidRequest("-".to_string())));
    assert_eq!(top.total_requests, 5);
    assert_eq!(top.errors, 0);
}

#[test]
fn parse_failure_counts_an_error_and_nothing_else() {
    let mut top = TopInfo::new(10, false);
    top.record_parse_failure();
    top.record_parse_failure();
    assert_eq!(top.errors, 2);
    assert_eq!(top.total_requests, 0);
    assert!(top.response_codes.is_empty());
    assert!(top.requests_query.is_empty());
    assert_eq!(top.duration.start, Timestamp { seconds: i64::MAX, nanos: u32::MAX });
}

#[test]
fn one_entry_sets_both_ends_of_the_window() {
    let mut top = TopInfo::new(10, false);
    top.record(combined(1_552_619_825, None, None));
    assert_eq!(top.duration.start, at(1_552_619_825));
    assert_eq!(top.duration.end, at(1_552_619_825));
    top.record(combined(1_552_619_000, None, None));
    top.record(combined(1_552_620_000, None, None));
    assert_eq!(top.duration.start, at(1_552_619_000));
    assert_eq!(top.duration.end, at(1_552_620_000));
}

#[test]
fn common_entry_fills_the_base_tables_only() {
    let mut top = TopInfo::new(10, false);
    top.record(common(1, "192.168.0.7", "200 OK", get("/index.html", Some("/index.html?a=1"))));
    assert_eq!(top.response_codes.get("200 OK"), 1);
    assert_eq!(top.request_methods.get("GET"), 1);
    assert_eq!(top.requests_no_query.get("/index.html"), 1);
    assert_eq!(top.requests_query.get("/index.html?a=1"), 1);
    assert_eq!(top.client_ips.get("192.168.0.7"), 1);
    assert!(top.referrers.is_empty());
    assert!(top.user_agents.is_empty());
    assert!(top.backend_ips.is_empty());
    assert!(top.x_forwarded_fors.is_empty());
    assert!(top.hosts.is_empty());
    assert!(top.app_ids.is_empty());
    assert!(top.app_indexes.is_empty());
    assert!(top.response_times.is_empty());
    assert!(top.gorouter_times.is_empty());
    assert!(top.x_cf_routererrors.is_empty());
}

#[test]
fn unreadable_request_line_is_counted_without_a_method() {
    let mut top = TopInfo::new(10, false);
    top.record(common(1, "10.0.0.1", "400 Bad Request", RequestLine::InvalidPath("GET /%%% HTTP/1.1".to_string())));
    top.record(common(2, "10.0.0.1", "400 Bad Request", RequestLine::InvalidRequest("\\x16\\x03".to_string())));
    assert!(top.request_methods.is_empty());
    assert_eq!(top.requests_no_query.get(""), 2);
    assert_eq!(top.requests_query.get("GET /%%% HTTP/1.1"), 1);
    assert_eq!(top.requests_query.get("\\x16\\x03"), 1);
    assert_eq!(top.response_codes.get("400 Bad Request"), 2);
    assert_eq!(top.total_requests, 2);
}

#[test]
fn request_without_a_usable_uri_is_counted_as_none() {
    let mut top = TopInfo::new(10, false);
    top.record(common(1, "10.0.0.1", "200 OK", get("", None)));
    assert_eq!(top.requests_query.get("<none>"), 1);
    assert_eq!(top.requests_no_query.get(""), 1);
    assert_eq!(top.request_methods.get("GET"), 1);
}

#[test]
fn missing_referrer_and_user_agent_are_counted_as_none() {
    let mut top = TopInfo::new(10, false);
    top.record(combined(1, None, None));
    top.record(combined(2, Some("http://example.com/a"), Some("curl/8")));
    top.record(combined(3, None, Some("curl/8")));
    assert_eq!(top.referrers.get("<none>"), 2);
    assert_eq!(top.referrers.get("http://example.com/a"), 1);
    assert_eq!(top.user_agents.get("<none>"), 1);
    assert_eq!(top.user_agents.get("curl/8"), 2);
    assert_eq!(top.client_ips.get("10.0.0.1"), 3);
    assert!(top.hosts.is_empty());
    assert!(top.response_times.is_empty());
}

#[test]
fn cloud_controller_entry_counts_chain_host_and_response_time() {
    let mut top = TopInfo::new(10, false);
    top.record(cloud_controller(1, &["172.26.28.115", "172.26.31.254", "172.26.30.2"], Some(0)));
    top.record(cloud_controller(2, &["172.26.31.254", "172.26.28.115", "172.26.30.2"], Some(4)));
    top.record(cloud_controller(3, &[], None));
    assert_eq!(top.x_forwarded_fors.get("172.26.28.115, 172.26.31.254, 172.26.30.2"), 1);
    assert_eq!(top.x_forwarded_fors.get("172.26.31.254, 172.26.28.115, 172.26.30.2"), 1);
    assert_eq!(top.x_forwarded_fors.get(""), 1);
    assert_eq!(top.hosts.get("api.example.com"), 3);
    assert_eq!(top.response_times.get(0), 1);
    assert_eq!(top.response_times.get(4), 1);
    assert_eq!(top.response_times.get(usize::MAX), 1);
    assert_eq!(top.referrers.get("<none>"), 3);
    assert_eq!(top.user_agents.get("cf/6"), 3);
    assert!(top.client_ips.is_empty());
    assert!(top.gorouter_times.is_empty());
    assert!(top.app_ids.is_empty());
    assert!(top.x_cf_routererrors.is_empty());
}

#[test]
fn gorouter_entry_fills_every_table() {
    let mut top = TopInfo::new(10, false);
    top.record(LogEntry::GorouterLog(gorouter(7)));
    assert_eq!(top.response_codes.get("404 Not Found"), 1);
    assert_eq!(top.request_methods.get("PUT"), 1);
    assert_eq!(top.requests_no_query.get("/eureka"), 1);
    assert_eq!(top.requests_query.get("/eureka?status=UP"), 1);
    assert_eq!(top.client_ips.get("10.224.20.205"), 1);
    assert_eq!(top.referrers.get("http://example.com/"), 1);
    assert_eq!(top.user_agents.get("Java"), 1);
    assert_eq!(top.backend_ips.get("10.0.1.7"), 1);
    assert_eq!(top.x_forwarded_fors.get("10.179.113.63, 10.0.0.9"), 1);
    assert_eq!(top.hosts.get("app.example.com"), 1);
    assert_eq!(top.app_ids.get("1b4ad7a6"), 1);
    assert_eq!(top.app_indexes.get(2), 1);
    assert_eq!(top.response_times.get(0), 1);
    assert_eq!(top.gorouter_times.get(3), 1);
    assert_eq!(top.x_cf_routererrors.get("endpoint_failure"), 1);
}

#[test]
fn gorouter_entry_with_nothing_optional() {
    let mut entry = gorouter(7);
    entry.referrer = None;
    entry.user_agent = None;
    entry.backend_addr = None;
    entry.app_id = None;
    entry.app_index = None;
    entry.response_time = None;
    entry.gorouter_time = None;
    entry.x_cf_routererror = None;
    let mut top = TopInfo::new(10, false);
    top.record(LogEntry::GorouterLog(entry));
    assert_eq!(top.referrers.get("<none>"), 1);
    assert_eq!(top.user_agents.get("<none>"), 1);
    assert_eq!(top.x_cf_routererrors.get("<none>"), 1);
    assert_eq!(top.response_times.get(usize::MAX), 1);
    assert_eq!(top.gorouter_times.get(usize::MAX), 1);
    assert!(top.backend_ips.is_empty());
    assert!(top.app_ids.is_empty());
    assert!(top.app_indexes.is_empty());
}

#[test]
fn chain_is_joined_in_its_order() {
    assert_eq!(join_chain(&Vec::new()), "");
    assert_eq!(join_chain(&vec!["10.0.0.1".to_string()]), "10.0.0.1");
    assert_eq!(
        join_chain(&vec!["a".to_string(), "b".to_string(), "c".to_string()]),
        "a, b, c"
    );
    assert_eq!(join_chain(&vec!["".to_string(), "".to_string()]), ", ");
}

fn counts(top: &TopInfo) -> Vec<Vec<(String, usize)>> {
    let mut all = vec![
        top.response_codes.iterate(),
        top.request_methods.iterate(),
        top.requests_no_query.iterate(),
        top.requests_query.iterate(),
        top.client_ips.iterate(),
        top.referrers.iterate(),
        top.user_agents.iterate(),
        top.backend_ips.iterate(),
        top.x_forwarded_fors.iterate(),
        top.hosts.iterate(),
        top.app_ids.iterate(),
        top.x_cf_routererrors.iterate(),
    ];
    for numbers in [&top.app_indexes, &top.response_times, &top.gorouter_times] {
        all.push(numbers.iterate().into_iter().map(|(k, c)| (k.to_string(), c)).collect());
    }
    for pairs in all.iter_mut() {
        pairs.sort();
    }
    all
}

#[test]
fn order_of_recording_does_not_change_the_counts() {
    let entries = vec![
        common(5, "10.0.0.1", "200 OK", get("/a", Some("/a?x"))),
        combined(3, None, Some("curl/8")),
        LogEntry::GorouterLog(gorouter(9)),
        cloud_controller(1, &["10.0.0.2"], Some(2)),
        common(7, "10.0.0.2", "200 OK", get("/a", Some("/a?y"))),
        LogEntry::GorouterLog(gorouter(2)),
    ];
    let mut forward = TopInfo::new(10, false);
    for entry in entries.iter() {
        forward.record(entry.clone());
    }
    let mut backward = TopInfo::new(10, false);
    for entry in entries.iter().rev() {
        backward.record(entry.clone());
    }
    assert_eq!(counts(&forward), counts(&backward));
    assert_eq!(forward.total_requests, backward.total_requests);
    assert_eq!(forward.duration, backward.duration);
    assert_eq!(forward.duration.start, at(1));
    assert_eq!(forward.duration.end, at(9));
    assert_eq!(forward.response_codes.get("200 OK"), 4);
    assert_eq!(forward.response_codes.get("404 Not Found"), 2);
}
