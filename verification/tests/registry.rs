use iana_ports::CompileError;
use iana_ports::RawRow;
use iana_ports::Registry;
use iana_ports::Service;
use iana_ports::TransportProtocol;

fn row(name: &str, port: &str, transport_protocol: Option<&str>) -> RawRow {
    RawRow {
        name: name.to_string(),
        port: port.to_string(),
        transport_protocol: transport_protocol.map(|t| t.to_string()),
    }
}

fn example_rows() -> Vec<RawRow> {
    vec![
        row("echo", "7", Some("tcp")),
        row("echo", "7", Some("udp")),
        row("ftp", "21", Some("tcp")),
        row("http-alt", "8080", Some("tcp")),
    ]
}

fn collect(mut it: iana_ports::Iter) -> Vec<Service> {
    let mut out = Vec::new();
    while let Some(svc) = it.next() {
        out.push(svc);
    }
    out
}

fn collect_back(mut it: iana_ports::Iter) -> Vec<Service> {
    let mut out = Vec::new();
    while let Some(svc) = it.next_back() {
        out.push(svc);
    }
    out
}

#[test]
fn example_rows_retain_first_three() {
    let reg = Registry::compile(&example_rows()).unwrap();
    let all = collect(reg.iter());
    assert_eq!(all.len(), 3);
    assert_eq!(all[0].name, "echo");
    assert_eq!(all[0].port, 7);
    assert_eq!(all[0].transport_protocol, Some(TransportProtocol::Tcp));
    assert_eq!(all[1].name, "echo");
    assert_eq!(all[1].port, 7);
    assert_eq!(all[1].transport_protocol, Some(TransportProtocol::Udp));
    assert_eq!(all[2].name, "ftp");
    assert_eq!(all[2].port, 21);
    assert_eq!(all[2].transport_protocol, Some(TransportProtocol::Tcp));
}

#[test]
fn example_by_port_seven() {
    let reg = Registry::compile(&example_rows()).unwrap();
    let hits = collect(reg.by_port(7));
    assert_eq!(hits.len(), 2);
    assert_eq!(hits[0].name, "echo");
    assert_eq!(hits[0].transport_protocol, Some(TransportProtocol::Tcp));
    assert_eq!(hits[1].name, "echo");
    assert_eq!(hits[1].transport_protocol, Some(TransportProtocol::Udp));
}

#[test]
fn example_by_name_echo() {
    let reg = Registry::compile(&example_rows()).unwrap();
    let hits = collect(reg.by_name("echo"));
    assert_eq!(hits.len(), 2);
    assert_eq!(hits[0].port, 7);
    assert_eq!(hits[0].transport_protocol, Some(TransportProtocol::Tcp));
    assert_eq!(hits[1].port, 7);
    assert_eq!(hits[1].transport_protocol, Some(TransportProtocol::Udp));
}

#[test]
fn example_by_port_past_boundary_is_empty() {
    let reg = Registry::compile(&example_rows()).unwrap();
    let mut it = reg.by_port(8080);
    assert_eq!(it.len(), 0);
    assert!(it.next().is_none());
}

#[test]
fn absent_port_yields_empty_sequence() {
    let reg = Registry::compile(&example_rows()).unwrap();
    let mut it = reg.by_port(23);
    assert_eq!(it.len(), 0);
    assert_eq!(it.size_hint(), (0, Some(0)));
    assert!(it.next().is_none());
    assert!(it.next_back().is_none());
}

#[test]
fn absent_name_yields_empty_sequence() {
    let reg = Registry::compile(&example_rows()).unwrap();
    let mut it = reg.by_name("telnet");
    assert_eq!(it.len(), 0);
    assert!(it.next().is_none());
}

#[test]
fn name_lookup_is_case_sensitive() {
    let rows = vec![row("http", "80", Some("tcp"))];
    let reg = Registry::compile(&rows).unwrap();
    assert_eq!(reg.by_name("HTTP").len(), 0);
    assert_eq!(reg.by_name("Http").len(), 0);
    let hits = collect(reg.by_name("http"));
    assert_eq!(hits.len(), 1);
    assert_eq!(hits[0].port, 80);
}

#[test]
fn empty_name_row_is_dropped() {
    let rows = vec![row("", "5", Some("tcp")), row("rje", "5", Some("tcp"))];
    let reg = Registry::compile(&rows).unwrap();
    let all = collect(reg.iter());
    assert_eq!(all.len(), 1);
    assert_eq!(all[0].name, "rje");
}

#[test]
fn unparsable_port_row_is_dropped() {
    let rows = vec![row("echo", "abc", Some("tcp")), row("ftp", "21", Some("tcp"))];
    let reg = Registry::compile(&rows).unwrap();
    let all = collect(reg.iter());
    assert_eq!(all.len(), 1);
    assert_eq!(all[0].name, "ftp");
}

#[test]
fn unrecognized_protocol_aborts_compilation() {
    let rows = vec![row("echo", "7", Some("tcp")), row("web", "80", Some("quic"))];
    let result = Registry::compile(&rows);
    assert!(matches!(
        result,
        Err(CompileError::UnrecognizedTransportProtocol)
    ));
}

#[test]
fn bad_protocol_after_boundary_is_never_seen() {
    let rows = vec![
        row("ftp", "21", Some("tcp")),
        row("stop", "1024", None),
        row("late", "2000", Some("quic")),
    ];
    let reg = Registry::compile(&rows).unwrap();
    assert_eq!(reg.iter().len(), 1);
}

#[test]
fn boundary_port_is_exclusive() {
    let rows = vec![row("last", "1023", None), row("first-user", "1024", None)];
    let reg = Registry::compile(&rows).unwrap();
    let all = collect(reg.iter());
    assert_eq!(all.len(), 1);
    assert_eq!(all[0].port, 1023);
}

#[test]
fn rows_after_halt_are_not_considered() {
    let rows = vec![
        row("ok", "9", Some("udp")),
        row("halt", "4096", None),
        row("ignored", "10", Some("tcp")),
    ];
    let reg = Registry::compile(&rows).unwrap();
    let all = collect(reg.iter());
    assert_eq!(all.len(), 1);
    assert_eq!(all[0].name, "ok");
    assert_eq!(reg.by_port(10).len(), 0);
}

#[test]
fn missing_protocol_is_kept_as_none() {
    let rows = vec![row("discard", "9", None)];
    let reg = Registry::compile(&rows).unwrap();
    let all = collect(reg.iter());
    assert_eq!(all.len(), 1);
    assert_eq!(all[0].transport_protocol, None);
}

#[test]
fn sctp_and_dccp_tokens_are_recognized() {
    let rows = vec![row("sig", "100", Some("sctp")), row("media", "101", Some("dccp"))];
    let reg = Registry::compile(&rows).unwrap();
    let all = collect(reg.iter());
    assert_eq!(all[0].transport_protocol, Some(TransportProtocol::Sctp));
    assert_eq!(all[1].transport_protocol, Some(TransportProtocol::Dccp));
}

#[test]
fn plus_signed_port_parses() {
    let rows = vec![row("ftp", "+21", Some("tcp"))];
    let reg = Registry::compile(&rows).unwrap();
    let all = collect(reg.iter());
    assert_eq!(all.len(), 1);
    assert_eq!(all[0].port, 21);
}

#[test]
fn oversized_port_is_dropped_not_halting() {
    let rows = vec![row("big", "70000", None), row("ftp", "21", Some("tcp"))];
    let reg = Registry::compile(&rows).unwrap();
    let all = collect(reg.iter());
    assert_eq!(all.len(), 1);
    assert_eq!(all[0].name, "ftp");
}

#[test]
fn duplicate_rows_become_distinct_records() {
    let rows = vec![row("twin", "5", Some("tcp")), row("twin", "5", Some("tcp"))];
    let reg = Registry::compile(&rows).unwrap();
    assert_eq!(reg.iter().len(), 2);
    assert_eq!(reg.by_port(5).len(), 2);
    assert_eq!(reg.by_name("twin").len(), 2);
}

#[test]
fn compiling_twice_is_idempotent() {
    let rows = example_rows();
    let first = Registry::compile(&rows).unwrap();
    let second = Registry::compile(&rows).unwrap();
    let a = collect(first.iter());
    let b = collect(second.iter());
    assert_eq!(a.len(), b.len());
    for (x, y) in a.iter().zip(b.iter()) {
        assert_eq!(x.name, y.name);
        assert_eq!(x.port, y.port);
        assert_eq!(x.transport_protocol, y.transport_protocol);
    }
    let pa = collect(first.by_port(7));
    let pb = collect(second.by_port(7));
    assert_eq!(pa.len(), pb.len());
    for (x, y) in pa.iter().zip(pb.iter()) {
        assert_eq!(x.name, y.name);
        assert_eq!(x.transport_protocol, y.transport_protocol);
    }
}

#[test]
fn reverse_traversal_mirrors_forward() {
    let reg = Registry::compile(&example_rows()).unwrap();
    let forward = collect(reg.iter());
    let mut backward = collect_back(reg.iter());
    backward.reverse();
    assert_eq!(forward.len(), backward.len());
    for (x, y) in forward.iter().zip(backward.iter()) {
        assert_eq!(x.name, y.name);
        assert_eq!(x.port, y.port);
        assert_eq!(x.transport_protocol, y.transport_protocol);
    }
}

#[test]
fn traversal_ends_are_interleavable() {
    let reg = Registry::compile(&example_rows()).unwrap();
    let mut it = reg.iter();
    assert_eq!(it.len(), 3);
    let front = it.next().unwrap();
    assert_eq!(front.transport_protocol, Some(TransportProtocol::Tcp));
    assert_eq!(it.len(), 2);
    let back = it.next_back().unwrap();
    assert_eq!(back.name, "ftp");
    assert_eq!(it.len(), 1);
    let middle = it.next().unwrap();
    assert_eq!(middle.name, "echo");
    assert_eq!(middle.transport_protocol, Some(TransportProtocol::Udp));
    assert_eq!(it.len(), 0);
    assert!(it.next().is_none());
    assert!(it.next_back().is_none());
}

#[test]
fn queries_are_restartable() {
    let reg = Registry::compile(&example_rows()).unwrap();
    let mut first = reg.by_port(7);
    first.next();
    first.next();
    assert_eq!(first.len(), 0);
    let second = reg.by_port(7);
    assert_eq!(second.len(), 2);
    let again = collect(second);
    assert_eq!(again.len(), 2);
    assert_eq!(again[0].name, "echo");
}

#[test]
fn size_hint_is_exact_throughout() {
    let reg = Registry::compile(&example_rows()).unwrap();
    let mut it = reg.iter();
    assert_eq!(it.size_hint(), (3, Some(3)));
    it.next();
    assert_eq!(it.size_hint(), (2, Some(2)));
    it.next_back();
    assert_eq!(it.size_hint(), (1, Some(1)));
    it.next();
    assert_eq!(it.size_hint(), (0, Some(0)));
}

#[test]
fn empty_source_compiles_to_empty_registry() {
    let reg = Registry::compile(&Vec::new()).unwrap();
    assert_eq!(reg.iter().len(), 0);
    assert_eq!(reg.by_port(0).len(), 0);
    assert_eq!(reg.by_name("").len(), 0);
}

#[test]
fn port_zero_is_in_range() {
    let rows = vec![row("reserved", "0", None)];
    let reg = Registry::compile(&rows).unwrap();
    let hits = collect(reg.by_port(0));
    assert_eq!(hits.len(), 1);
    assert_eq!(hits[0].name, "reserved");
}
