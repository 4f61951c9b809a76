use fluxion::host::{item_kind_label, ItemKind};
use fluxion::host::plan_preopens;
use fluxion::host::{
    addr_permitted, epoch_deadline, is_oom_error, judge_call, memory_limit_bytes, network_gate,
    oom_rewrite, CallOutcome, CallVerdict, IpAddr, NetworkEntry, SocketAddr,
};

fn v4(a: u8, b: u8, c: u8, d: u8) -> u32 {
    u32::from_be_bytes([a, b, c, d])
}

fn sock4(a: u8, b: u8, c: u8, d: u8, port: u16) -> SocketAddr {
    SocketAddr::V4 { ip: v4(a, b, c, d), port }
}

#[test]
fn exact_entry_matches_only_same_port() {
    let e = NetworkEntry::Exact(sock4(93, 184, 216, 34, 443));
    assert!(e.matches(sock4(93, 184, 216, 34, 443)));
    assert!(!e.matches(sock4(93, 184, 216, 34, 80)));
    assert!(!e.matches(sock4(1, 2, 3, 4, 443)));
}

#[test]
fn any_port_entry_matches_all_ports() {
    let e = NetworkEntry::AnyPort(IpAddr::V4(v4(93, 184, 216, 34)));
    assert!(e.matches(sock4(93, 184, 216, 34, 443)));
    assert!(e.matches(sock4(93, 184, 216, 34, 80)));
    assert!(!e.matches(sock4(1, 2, 3, 4, 443)));
}

#[test]
fn ipv6_exact_entry() {
    let e = NetworkEntry::Exact(SocketAddr::V6 { ip: 1, port: 8080, flowinfo: 0, scope_id: 0 });
    assert!(e.matches(SocketAddr::V6 { ip: 1, port: 8080, flowinfo: 0, scope_id: 0 }));
    assert!(!e.matches(SocketAddr::V6 { ip: 1, port: 9090, flowinfo: 0, scope_id: 0 }));
    assert_eq!(SocketAddr::V6 { ip: 1, port: 9090, flowinfo: 0, scope_id: 0 }.ip(), IpAddr::V6(1));
}

#[test]
fn empty_allowlist_denies_everything() {
    let gate = network_gate(0, vec![]).unwrap();
    assert!(gate.is_none());
    assert!(!addr_permitted(&gate, sock4(127, 0, 0, 1, 19999)));
}

#[test]
fn unparsable_allowlist_is_an_error() {
    let err = network_gate(2, vec![]).err().unwrap();
    assert_eq!(err.message(), "network.allow has entries but none could be parsed as `IP` or `IP:port`");
}

#[test]
fn allowlist_lets_listed_addresses_through() {
    let gate = network_gate(1, vec![NetworkEntry::Exact(sock4(127, 0, 0, 1, 19999))]).unwrap();
    assert!(addr_permitted(&gate, sock4(127, 0, 0, 1, 19999)));
    assert!(!addr_permitted(&gate, sock4(127, 0, 0, 1, 20000)));
}

#[test]
fn oom_detection_and_message() {
    assert!(is_oom_error("wasm trap: memory allocation failed"));
    assert!(is_oom_error("memory index 0 exceeds memory limits"));
    assert!(!is_oom_error("unreachable executed"));
    assert_eq!(
        oom_rewrite(1, "exceeds memory limits").unwrap(),
        "OOM: component exceeded memory_mb=1 limit (exceeds memory limits)"
    );
    assert!(oom_rewrite(1, "other").is_none());
}

#[test]
fn limits() {
    assert_eq!(memory_limit_bytes(64), 64 * 1024 * 1024);
    assert_eq!(epoch_deadline(2), 20);
}

#[test]
fn call_verdicts() {
    assert!(matches!(judge_call(CallOutcome::Output(b"hi".to_vec()), 5), CallVerdict::Output(o) if o == b"hi"));
    match judge_call(CallOutcome::ComponentError("nope".to_string()), 5) {
        CallVerdict::Failed(m) => assert_eq!(m, "Component error: nope"),
        _ => panic!(),
    }
    match judge_call(CallOutcome::Trap { epoch_interrupt: true }, 2) {
        CallVerdict::Failed(m) => assert_eq!(m, "Timeout: killed after 2s (epoch interrupt)"),
        _ => panic!(),
    }
    assert!(matches!(judge_call(CallOutcome::Trap { epoch_interrupt: false }, 2), CallVerdict::Trap));
}

#[test]
fn preopens_keep_existing_read_dirs_then_all_write_dirs() {
    let s = |v: &[&str]| v.iter().map(|x| x.to_string()).collect::<Vec<String>>();
    let plan = plan_preopens(&s(&["/data", "/missing", "/tmp"]), &vec![true, false, true], &s(&["/out", "/data"]));
    let got: Vec<(&str, bool)> = plan.iter().map(|p| (p.path.as_str(), p.writable)).collect();
    assert_eq!(got, vec![("/data", false), ("/tmp", false), ("/out", true), ("/data", true)]);
    assert!(plan_preopens(&vec![], &vec![], &vec![]).is_empty());
}

#[test]
fn item_kind_labels() {
    assert_eq!(item_kind_label(ItemKind::ComponentFunc), "func");
    assert_eq!(item_kind_label(ItemKind::CoreFunc), "core-func");
    assert_eq!(item_kind_label(ItemKind::Module), "module");
    assert_eq!(item_kind_label(ItemKind::Component), "component");
    assert_eq!(item_kind_label(ItemKind::ComponentInstance), "instance");
    assert_eq!(item_kind_label(ItemKind::Type), "type");
    assert_eq!(item_kind_label(ItemKind::Resource), "resource");
}
