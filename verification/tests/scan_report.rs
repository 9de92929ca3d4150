use port_sniffer::report::port_line;
use port_sniffer::report::run_scan;
use port_sniffer::report::sort_ports;
use port_sniffer::text::contains_substr;
use port_sniffer::text::parse_u16;
use port_sniffer::text::u16_decimal;

fn open_ports(ports: &[u16]) -> Vec<bool> {
    let mut open = vec![false; 65536];
    for &p in ports {
        open[p as usize] = true;
    }
    open
}

#[test]
fn report_is_sorted_ascending() {
    assert_eq!(sort_ports(vec![8080, 22, 443, 80]), vec![22, 80, 443, 8080]);
}

#[test]
fn report_does_not_depend_on_discovery_order() {
    assert_eq!(sort_ports(vec![8080, 22]), sort_ports(vec![22, 8080]));
    assert_eq!(
        sort_ports(vec![443, 22, 8080]),
        sort_ports(vec![8080, 443, 22])
    );
}

#[test]
fn empty_collection_gives_empty_report() {
    assert_eq!(sort_ports(vec![]), vec![]);
}

#[test]
fn listeners_on_22_and_8080_with_four_workers() {
    let r = run_scan(&open_ports(&[22, 8080]), 4);
    assert_eq!(r, vec![22, 8080]);
    let lines: Vec<String> = r.into_iter().map(port_line).collect();
    assert_eq!(lines, vec!["22 is open".to_string(), "8080 is open".to_string()]);
}

#[test]
fn unreachable_target_with_ten_workers_gives_empty_report() {
    // every probe fails: the report is empty, not an error
    let r = run_scan(&open_ports(&[]), 10);
    assert_eq!(r, Vec::<u16>::new());
}

#[test]
fn two_runs_of_the_same_scan_agree() {
    let open = open_ports(&[22, 80, 443, 8080, 60000]);
    assert_eq!(run_scan(&open, 7), run_scan(&open, 7));
}

#[test]
fn scan_finds_high_ports() {
    let r = run_scan(&open_ports(&[2, 65530]), 4);
    assert_eq!(r, vec![2, 65530]);
}

#[test]
fn scan_with_worker_count_near_the_port_maximum() {
    // each worker probes at most two ports and stops
    assert_eq!(run_scan(&open_ports(&[22]), 65534), vec![22]);
    assert_eq!(run_scan(&open_ports(&[65535]), 65535), vec![65535]);
}

#[test]
fn top_port_is_scanned_by_every_worker_count() {
    for n in [1u16, 2, 3, 4, 10, 65534] {
        assert_eq!(run_scan(&open_ports(&[65535]), n), vec![65535], "workers {}", n);
    }
}

#[test]
fn report_lines_render_ports_in_decimal() {
    assert_eq!(port_line(22), "22 is open");
    assert_eq!(port_line(8080), "8080 is open");
    assert_eq!(port_line(65535), "65535 is open");
    assert_eq!(u16_decimal(0), "0");
    assert_eq!(u16_decimal(7), "7");
    assert_eq!(u16_decimal(1000), "1000");
    assert_eq!(u16_decimal(65535), "65535");
}

#[test]
fn parse_u16_accepts_what_std_accepts() {
    assert_eq!(parse_u16("0"), Some(0));
    assert_eq!(parse_u16("4"), Some(4));
    assert_eq!(parse_u16("007"), Some(7));
    assert_eq!(parse_u16("+12"), Some(12));
    assert_eq!(parse_u16("65535"), Some(65535));
    assert_eq!(parse_u16("65536"), None);
    assert_eq!(parse_u16("999999999999999999999"), None);
    assert_eq!(parse_u16(""), None);
    assert_eq!(parse_u16("+"), None);
    assert_eq!(parse_u16("1a"), None);
    assert_eq!(parse_u16(" 1"), None);
    assert_eq!(parse_u16("-1"), None);
    // agreement with the standard parser on a sweep of inputs
    for s in ["17", "65534", "0017", "+65535", "65 535", "6553a5", "⑤"] {
        assert_eq!(parse_u16(s), s.parse::<u16>().ok(), "input {:?}", s);
    }
}

#[test]
fn substring_search_matches_std() {
    let cases = [
        ("-help", "-h"),
        ("-h", "-h"),
        ("abc", "-h"),
        ("", "-h"),
        ("x-j", "-j"),
        ("-j", "-help"),
        ("anything", ""),
        ("--host", "-h"),
    ];
    for (hay, needle) in cases {
        assert_eq!(
            contains_substr(hay, needle),
            hay.contains(needle),
            "haystack {:?}, needle {:?}",
            hay,
            needle
        );
    }
}
