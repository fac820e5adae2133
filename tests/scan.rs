use subnet_scanner::cidr::IpAddress;
use subnet_scanner::render::{ipv4_chars, probe_label};
use subnet_scanner::scan::{distinct_ports, probe_plan, Collector, Dispatcher, Probe, ScanError, Step};

fn s(v: &[char]) -> String {
    v.iter().collect()
}

#[test]
fn plan_is_cross_product_in_order() {
    let hosts = vec![IpAddress::V4(1), IpAddress::V4(2)];
    let plan = probe_plan(&hosts, &vec![22, 80]);
    assert_eq!(
        plan,
        vec![
            Probe { host: IpAddress::V4(1), port: 22 },
            Probe { host: IpAddress::V4(1), port: 80 },
            Probe { host: IpAddress::V4(2), port: 22 },
            Probe { host: IpAddress::V4(2), port: 80 },
        ]
    );
    assert!(probe_plan(&vec![], &vec![22]).is_empty());
}

#[test]
fn dispatcher_rejects_zero_concurrency() {
    assert!(matches!(Dispatcher::new(5, 0), Err(ScanError::InvalidConcurrency)));
}

#[test]
fn dispatcher_respects_ceiling() {
    let mut d = Dispatcher::new(5, 2).ok().unwrap();
    assert_eq!(d.step(), Step::Start(0));
    assert_eq!(d.step(), Step::Start(1));
    assert_eq!(d.in_flight(), 2);
    assert_eq!(d.step(), Step::Wait);
    d.finish_one();
    assert_eq!(d.step(), Step::Start(2));
    assert_eq!(d.step(), Step::Wait);
    d.finish_one();
    d.finish_one();
    assert_eq!(d.step(), Step::Start(3));
    assert_eq!(d.step(), Step::Start(4));
    assert_eq!(d.step(), Step::Wait);
    d.finish_one();
    d.finish_one();
    assert_eq!(d.in_flight(), 0);
    assert_eq!(d.step(), Step::Done);
}

#[test]
fn dispatcher_empty_plan_is_done() {
    let mut d = Dispatcher::new(0, 3).ok().unwrap();
    assert_eq!(d.step(), Step::Done);
}

#[test]
fn labels_render_host_and_port() {
    assert_eq!(s(&ipv4_chars(0xC0A8_0101)), "192.168.1.1");
    assert_eq!(s(&ipv4_chars(0)), "0.0.0.0");
    assert_eq!(s(&probe_label(&ipv4_chars(0x0A00_0001), 8080)), "10.0.0.1:8080");
    assert_eq!(s(&probe_label(&vec!['h'], 0)), "h:0");
}

fn labels() -> Vec<Vec<char>> {
    let a = ipv4_chars(0x0A00_0001);
    let b = ipv4_chars(0x0A00_000A);
    vec![probe_label(&a, 80), probe_label(&a, 22), probe_label(&b, 22), probe_label(&b, 443)]
}

#[test]
fn results_sorted_by_label_text() {
    let mut c = Collector::new(4);
    c.record(0);
    c.record(2);
    c.record(1);
    let out: Vec<String> = c.results(&labels()).iter().map(|v| s(v)).collect();
    assert_eq!(out, vec!["10.0.0.10:22", "10.0.0.1:22", "10.0.0.1:80"]);
}

#[test]
fn results_without_duplicates_or_unrecorded() {
    let mut c = Collector::new(4);
    c.record(3);
    c.record(3);
    let out: Vec<String> = c.results(&labels()).iter().map(|v| s(v)).collect();
    assert_eq!(out, vec!["10.0.0.10:443"]);
    let dup = vec![vec!['x'], vec!['x']];
    let mut c = Collector::new(2);
    c.record(0);
    c.record(1);
    assert_eq!(c.results(&dup), vec![vec!['x']]);
    assert!(Collector::new(4).results(&labels()).is_empty());
}

#[test]
fn results_independent_of_report_order() {
    let mut first = Collector::new(4);
    let mut second = Collector::new(4);
    for i in [0usize, 1, 2, 3] {
        first.record(i);
    }
    for i in [3usize, 1, 2, 0] {
        second.record(i);
    }
    assert_eq!(first.results(&labels()), second.results(&labels()));
}

#[test]
fn distinct_ports_keeps_first_of_each() {
    assert_eq!(distinct_ports(&vec![443, 22, 443, 80, 22]), vec![443, 22, 80]);
    assert_eq!(distinct_ports(&vec![]), Vec::<u16>::new());
    assert_eq!(distinct_ports(&vec![7, 7, 7]), vec![7]);
}
