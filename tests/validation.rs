use proxy_scraper::export::{export_csv, export_header, export_row, export_rows};
use proxy_scraper::extract::scrape_proxies;
use proxy_scraper::pipeline::{country_of, live_record, needs_location, record_location};
use proxy_scraper::probe::{proxy_endpoint, ProbeSession, ProbeStep};
use proxy_scraper::proxy::{Protocol, Proxy};

/// Drives a session against a transport that succeeds for the protocols in
/// `accepts`; returns the protocols tried and the outcome.
fn drive(known: Protocol, accepts: &[Protocol]) -> (Vec<Protocol>, Option<Protocol>) {
    let mut session = ProbeSession::new(known);
    let mut tried = Vec::new();
    loop {
        match session.next_step() {
            ProbeStep::Probe(p) => {
                tried.push(p);
                session.record(accepts.contains(&p));
            }
            ProbeStep::Finished(outcome) => return (tried, outcome),
        }
    }
}

#[test]
fn unknown_protocol_probed_in_order() {
    let (tried, outcome) = drive(Protocol::Unknown, &[Protocol::Http]);
    assert_eq!(tried, vec![Protocol::Socks5, Protocol::Https, Protocol::Http]);
    assert_eq!(outcome, Some(Protocol::Http));
}

#[test]
fn first_success_stops_probing() {
    let (tried, outcome) = drive(Protocol::Unknown, &[Protocol::Socks5, Protocol::Https]);
    assert_eq!(tried, vec![Protocol::Socks5]);
    assert_eq!(outcome, Some(Protocol::Socks5));
}

#[test]
fn offline_proxy_tries_everything() {
    let (tried, outcome) = drive(Protocol::Unknown, &[]);
    assert_eq!(tried, vec![Protocol::Socks5, Protocol::Https, Protocol::Http]);
    assert_eq!(outcome, None);
}

#[test]
fn known_protocol_probed_alone() {
    let (tried, outcome) = drive(Protocol::Https, &[Protocol::Http, Protocol::Https]);
    assert_eq!(tried, vec![Protocol::Https]);
    assert_eq!(outcome, Some(Protocol::Https));
    let (tried, outcome) = drive(Protocol::Http, &[Protocol::Socks5]);
    assert_eq!(tried, vec![Protocol::Http]);
    assert_eq!(outcome, None);
}

#[test]
fn endpoints() {
    let p = Proxy::new_candidate("1.2.3.4".to_string(), 1080);
    assert_eq!(proxy_endpoint(&p, Protocol::Socks5).unwrap(), "socks5://1.2.3.4:1080");
    assert_eq!(proxy_endpoint(&p, Protocol::Https).unwrap(), "https://1.2.3.4:1080");
    assert_eq!(proxy_endpoint(&p, Protocol::Http).unwrap(), "http://1.2.3.4:1080");
    assert!(proxy_endpoint(&p, Protocol::Unknown).is_none());
}

#[test]
fn protocol_names() {
    assert_eq!(Protocol::Socks5.name(), "socks5");
    assert_eq!(Protocol::Unknown.name(), "unknown");
    assert_eq!(Protocol::from_name("https"), Some(Protocol::Https));
    assert_eq!(Protocol::from_name("http"), Some(Protocol::Http));
    assert_eq!(Protocol::from_name("HTTP"), None);
    assert_eq!(Protocol::from_name(""), None);
}

#[test]
fn table_row_to_https_record() {
    let html = "<table><tbody><tr><td>203.0.113.5</td><td>8080</td></tr></tbody></table>".to_string();
    let candidates = scrape_proxies(html);
    assert_eq!(candidates.len(), 1);
    let mut records = Vec::new();
    for c in candidates {
        let (_, outcome) = drive(c.proxy_type, &[Protocol::Https]);
        if let Some(r) = live_record(c, outcome) {
            records.push(r);
        }
    }
    assert_eq!(records.len(), 1);
    assert_eq!(records[0].ip, "203.0.113.5");
    assert_eq!(records[0].port, 8080);
    assert_eq!(records[0].proxy_type, Protocol::Https);
}

#[test]
fn dead_candidate_gives_no_record() {
    let c = Proxy::new_candidate("1.2.3.4".to_string(), 80);
    assert!(live_record(c, None).is_none());
}

#[test]
fn location_only_when_unknown() {
    let mut p = Proxy::new_candidate("1.2.3.4".to_string(), 80);
    assert!(needs_location(&p));
    record_location(&mut p, String::new());
    assert_eq!(p.location, "Unknown");
    assert!(needs_location(&p));
    record_location(&mut p, "Germany".to_string());
    assert_eq!(p.location, "Germany");
    assert!(!needs_location(&p));
}

#[test]
fn export_two_records() {
    let mut a = Proxy::new_candidate("1.2.3.4".to_string(), 80);
    a.proxy_type = Protocol::Http;
    a.location = "France".to_string();
    let mut b = Proxy::new_candidate("5.6.7.8".to_string(), 1080);
    b.proxy_type = Protocol::Socks5;
    b.date = "2024-01-01".to_string();
    let rows = export_rows(&vec![a, b]);
    assert_eq!(rows.len(), 3);
    assert_eq!(rows[0], vec!["IP", "Port", "Location", "Type", "Date"]);
    assert_eq!(rows[1], vec!["1.2.3.4", "80", "France", "http", "Unknown"]);
    assert_eq!(rows[2], vec!["5.6.7.8", "1080", "Unknown", "socks5", "2024-01-01"]);
    assert!(rows.iter().all(|r| r.len() == 5));
}

#[test]
fn export_of_nothing_is_header_only() {
    let rows = export_rows(&Vec::new());
    assert_eq!(rows, vec![export_header()]);
    let p = Proxy::new_candidate("9.9.9.9".to_string(), 65535);
    assert_eq!(export_row(&p)[1], "65535");
}

#[test]
fn country_from_lookup_answer() {
    assert_eq!(country_of(r#"{"status":"success","country":"Germany"}"#), Some("Germany".to_string()));
    assert_eq!(country_of(r#"{"status":"fail"}"#), Some(String::new()));
    assert_eq!(country_of(r#"{"country":7}"#), Some(String::new()));
    assert_eq!(country_of("[1, 2]"), Some(String::new()));
    assert_eq!(country_of("not json"), None);
}

#[test]
fn export_two_records_as_csv_text() {
    let mut a = Proxy::new_candidate("1.2.3.4".to_string(), 80);
    a.proxy_type = Protocol::Http;
    a.location = "France".to_string();
    let mut b = Proxy::new_candidate("5.6.7.8".to_string(), 1080);
    b.proxy_type = Protocol::Socks5;
    let text = export_csv(&vec![a, b]).unwrap();
    let lines: Vec<&str> = text.lines().collect();
    assert_eq!(
        lines,
        vec![
            "IP,Port,Location,Type,Date",
            "1.2.3.4,80,France,http,Unknown",
            "5.6.7.8,1080,Unknown,socks5,Unknown"
        ]
    );
    assert!(lines.iter().all(|l| l.split(',').count() == 5));
}
