use proxy_scraper::address::{decimal_text, is_ip_literal, is_ipv4_literal, is_ipv6_literal, parse_port};
use proxy_scraper::canonical::canonical_ip_text;
use proxy_scraper::extract::{parse_proxy, rows_to_candidates, scrape_proxies, tokens_to_candidates};
use proxy_scraper::proxy::{Protocol, Proxy};

fn addr_port(list: &[Proxy]) -> Vec<(String, u16)> {
    list.iter().map(|p| (p.ip.clone(), p.port)).collect()
}

fn pair(a: &str, p: &str) -> (String, String) {
    (a.to_string(), p.to_string())
}

#[test]
fn ipv4_literals() {
    assert!(is_ipv4_literal("1.2.3.4"));
    assert!(is_ipv4_literal("0.0.0.0"));
    assert!(is_ipv4_literal("255.255.255.255"));
    assert!(is_ipv4_literal("203.0.113.5"));
    assert!(!is_ipv4_literal("256.1.1.1"));
    assert!(!is_ipv4_literal("999.1.1.1"));
    assert!(!is_ipv4_literal("01.2.3.4"));
    assert!(!is_ipv4_literal("1.2.3"));
    assert!(!is_ipv4_literal("1.2.3.4.5"));
    assert!(!is_ipv4_literal("1..3.4"));
    assert!(!is_ipv4_literal("1.2.3.4 "));
    assert!(!is_ipv4_literal("1234.1.1.1"));
    assert!(!is_ipv4_literal(""));
    assert!(!is_ipv4_literal("a.b.c.d"));
}

#[test]
fn port_numbers() {
    assert_eq!(parse_port("8080"), Some(8080));
    assert_eq!(parse_port("0"), Some(0));
    assert_eq!(parse_port("65535"), Some(65535));
    assert_eq!(parse_port("00080"), Some(80));
    assert_eq!(parse_port("+80"), Some(80));
    assert_eq!(parse_port("65536"), None);
    assert_eq!(parse_port("70000"), None);
    assert_eq!(parse_port("99999999999"), None);
    assert_eq!(parse_port(""), None);
    assert_eq!(parse_port("+"), None);
    assert_eq!(parse_port("-1"), None);
    assert_eq!(parse_port("80a"), None);
}

#[test]
fn decimal_ports() {
    assert_eq!(decimal_text(0), "0");
    assert_eq!(decimal_text(7), "7");
    assert_eq!(decimal_text(8080), "8080");
    assert_eq!(decimal_text(65535), "65535");
}

#[test]
fn row_needs_two_valid_cells() {
    let row = vec!["203.0.113.5".to_string(), "8080".to_string(), "US".to_string()];
    let p = parse_proxy(&row).unwrap();
    assert_eq!(p.ip, "203.0.113.5");
    assert_eq!(p.port, 8080);
    assert_eq!(p.proxy_type, Protocol::Unknown);
    assert_eq!(p.location, "Unknown");
    assert_eq!(p.date, "Unknown");
    assert!(parse_proxy(&vec!["203.0.113.5".to_string()]).is_none());
    assert!(parse_proxy(&vec!["host".to_string(), "8080".to_string()]).is_none());
    assert!(parse_proxy(&vec!["1.2.3.4".to_string(), "port".to_string()]).is_none());
}

#[test]
fn rows_skip_bad_ones() {
    let rows = vec![
        vec!["IP".to_string(), "Port".to_string()],
        vec!["1.2.3.4".to_string(), "80".to_string()],
        vec![],
        vec!["5.6.7.8".to_string(), "3128".to_string()],
    ];
    assert_eq!(
        addr_port(&rows_to_candidates(&rows)),
        vec![("1.2.3.4".to_string(), 80), ("5.6.7.8".to_string(), 3128)]
    );
}

#[test]
fn tokens_keep_only_valid() {
    let pairs = vec![
        pair("1.2.3.4", "80"),
        pair("999.1.1.1", "80"),
        pair("1.2.3.4", "70000"),
        pair("10.0.0.1", "3128"),
        pair("1.2.3.4", "80"),
    ];
    assert_eq!(
        addr_port(&tokens_to_candidates(&pairs)),
        vec![
            ("1.2.3.4".to_string(), 80),
            ("10.0.0.1".to_string(), 3128),
            ("1.2.3.4".to_string(), 80)
        ]
    );
}

#[test]
fn fallback_scans_raw_text() {
    let text = "list: 1.2.3.4:80, bad 999.1.1.1:80 and 1.2.3.4:70000; good 10.0.0.1:3128.".to_string();
    assert_eq!(
        addr_port(&scrape_proxies(text)),
        vec![("1.2.3.4".to_string(), 80), ("10.0.0.1".to_string(), 3128)]
    );
}

#[test]
fn table_wins_over_raw_tokens() {
    let html = "<html><body><p>also 9.9.9.9:9999</p><table><tbody>\
        <tr><td>203.0.113.5</td><td>8080</td></tr>\
        </tbody></table></body></html>"
        .to_string();
    assert_eq!(addr_port(&scrape_proxies(html)), vec![("203.0.113.5".to_string(), 8080)]);
}

#[test]
fn table_without_valid_rows_falls_back() {
    let html = "<table><tbody><tr><td>IP</td><td>Port</td></tr></tbody></table> 9.9.9.9:9999"
        .to_string();
    assert_eq!(addr_port(&scrape_proxies(html)), vec![("9.9.9.9".to_string(), 9999)]);
}

#[test]
fn empty_page_gives_nothing() {
    assert!(scrape_proxies(String::new()).is_empty());
}

#[test]
fn duplicates_are_kept() {
    let html = "<table><tbody><tr><td>1.2.3.4</td><td>80</td></tr>\
        <tr><td>1.2.3.4</td><td>80</td></tr></tbody></table>"
        .to_string();
    assert_eq!(scrape_proxies(html).len(), 2);
}

#[test]
fn ipv6_literals() {
    for ok in [
        "::", "::1", "1::", "2001:db8::1", "2001:DB8:0:0:0:0:0:1", "1:2:3:4:5:6:7:8",
        "::ffff:1.2.3.4", "::1.2.3.4", "1:2:3:4:5:6:1.2.3.4", "1:2:3:4:5:6:7::", "fe80::1:2",
    ] {
        assert!(is_ipv6_literal(ok), "{}", ok);
        assert!(is_ip_literal(ok), "{}", ok);
    }
    for bad in [
        "", ":", "1:", ":1", "1:2:3:4:5:6:7", "1:2:3:4:5:6:7:8:9", "1::2::3", "12345::", "1.2.3.4::",
        "1:2:3:4:5:6:7:1.2.3.4", "::1:2:3:4:5:6:7:8", "1:2:3:4:5:6:7::8", "1:2:3:4:5:6::1.2.3.4",
        ":::", "1:::2", "g::1", "1.2.3.4",
    ] {
        assert!(!is_ipv6_literal(bad), "{}", bad);
    }
    assert!(is_ip_literal("1.2.3.4"));
    assert!(!is_ip_literal("1.2.3.256"));
}

#[test]
fn ipv6_row_is_a_candidate() {
    let row = vec!["2001:db8::1".to_string(), "3128".to_string()];
    let p = parse_proxy(&row).unwrap();
    assert_eq!(p.ip, "2001:db8::1");
    assert_eq!(p.port, 3128);
}

#[test]
fn canonical_addresses() {
    for (given, canonical) in [
        ("1.2.3.4", "1.2.3.4"),
        ("::A", "::a"),
        ("0:0:0:0:0:0:0:1", "::1"),
        ("2001:DB8:0000:0:0:0:0:0001", "2001:db8::1"),
        ("::ffff:1.2.3.4", "::ffff:1.2.3.4"),
        ("::FFFF:0102:0304", "::ffff:1.2.3.4"),
        ("::1.2.3.4", "::102:304"),
        ("1:0:0:2:0:0:0:3", "1:0:0:2::3"),
        ("1:0:0:2:0:0:3:4", "1::2:0:0:3:4"),
        ("1:0:2:3:4:5:6:7", "1:0:2:3:4:5:6:7"),
        ("::", "::"),
        ("1::", "1::"),
        ("fe80::0:1", "fe80::1"),
        ("0:0:0:0:0:0:0:0", "::"),
    ] {
        assert_eq!(canonical_ip_text(given), canonical, "{}", given);
    }
}

#[test]
fn uppercase_uncompressed_ipv6_row() {
    let row = vec!["2001:0DB8:0000:0000:0000:0000:0000:0001".to_string(), "8080".to_string()];
    let p = parse_proxy(&row).unwrap();
    assert_eq!(p.ip, "2001:db8::1");
    assert_eq!(p.port, 8080);
    let html = "<table><tbody><tr><td>::A</td><td>80</td></tr></tbody></table>".to_string();
    assert_eq!(addr_port(&scrape_proxies(html)), vec![("::a".to_string(), 80)]);
}

#[test]
fn header_cells_are_cells() {
    let html = "<table><tbody><tr><th>5.6.7.8</th><td>3128</td></tr></tbody></table>".to_string();
    assert_eq!(addr_port(&scrape_proxies(html)), vec![("5.6.7.8".to_string(), 3128)]);
}
