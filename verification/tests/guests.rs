use fluxion::guests::{
    alloc_bomb, alloc_megabytes, file_read_failure, file_read_reply, file_reader_path, hello_reply,
    probe_reply, probe_target, spin_iterations, spin_process, spin_sum, ProbeOutcome,
};

fn pairs(m: &[(String, String)]) -> Vec<(&str, &str)> {
    m.iter().map(|(k, v)| (k.as_str(), v.as_str())).collect()
}

#[test]
fn hello_greets_with_the_input_size() {
    let r = hello_reply(11);
    assert_eq!(r.content, "Hello from Fluxion! Received 11 bytes.");
    assert_eq!(pairs(&r.metadata), vec![("source", "hello-component")]);
}

#[test]
fn spin_reads_its_iteration_count() {
    assert_eq!(spin_iterations(b" 10\n".to_vec()), 10);
    assert_eq!(spin_iterations(b"lots".to_vec()), u64::MAX);
    assert_eq!(spin_iterations(vec![0xff, 0xfe]), u64::MAX);
    assert_eq!(spin_iterations(Vec::new()), u64::MAX);
}

#[test]
fn spin_sums_below_n() {
    assert_eq!(spin_sum(0), 0);
    assert_eq!(spin_sum(1), 0);
    assert_eq!(spin_sum(10), 45);
    assert_eq!(spin_sum(100_000), 4_999_950_000);
    let r = spin_process(b"5".to_vec());
    assert_eq!(r.content, "sum=10");
    assert_eq!(pairs(&r.metadata), vec![("iterations", "5")]);
}

#[test]
fn alloc_bomb_reads_megabytes() {
    assert_eq!(alloc_megabytes(b"10".to_vec()), 10);
    assert_eq!(alloc_megabytes(b"  1 ".to_vec()), 1);
    assert_eq!(alloc_megabytes(b"-1".to_vec()), 64);
    assert_eq!(alloc_megabytes(Vec::new()), 64);
}

#[test]
fn alloc_bomb_fills_and_sums() {
    let r = alloc_bomb(1);
    assert_eq!(r.content, "Allocated 1MB ok");
    // 4096 runs of 0..=255, each summing to 32640.
    assert_eq!(pairs(&r.metadata), vec![("mb", "1"), ("checksum", "133693440")]);
    let r = alloc_bomb(0);
    assert_eq!(pairs(&r.metadata), vec![("mb", "0"), ("checksum", "0")]);
}

#[test]
fn file_reader_paths() {
    assert_eq!(file_reader_path(b" /tmp/x.txt\n".to_vec()), Ok("/tmp/x.txt".to_string()));
    assert_eq!(file_reader_path(b"   ".to_vec()), Ok("/data/input.txt".to_string()));
    assert_eq!(file_reader_path(Vec::new()), Ok("/data/input.txt".to_string()));
    let err = file_reader_path(vec![0xc3]).unwrap_err();
    assert_eq!(err, String::from_utf8(vec![0xc3]).unwrap_err().to_string());
}

#[test]
fn file_reader_replies() {
    let r = file_read_reply("/tmp/x.txt", 19);
    assert_eq!(r.content, "Read 19 bytes from /tmp/x.txt");
    assert_eq!(pairs(&r.metadata), vec![("file", "/tmp/x.txt"), ("status", "ok")]);
    assert_eq!(file_read_failure("/etc/x", "denied"), "Cannot read '/etc/x': denied");
}

#[test]
fn network_probe_replies() {
    assert_eq!(probe_target(b" 127.0.0.1:9 \n".to_vec()), Ok("127.0.0.1:9".to_string()));
    let ok = probe_reply("1.2.3.4:80", ProbeOutcome::Connected).unwrap();
    assert_eq!(ok.content, "Connected to 1.2.3.4:80");
    assert_eq!(pairs(&ok.metadata), vec![("status", "connected")]);
    let reached = probe_reply("1.2.3.4:80", ProbeOutcome::Refused).unwrap();
    assert_eq!(reached.content, "Reached 1.2.3.4:80 (no server \u{2014} permission granted)");
    assert_eq!(pairs(&reached.metadata), vec![("status", "reached")]);
    let err = probe_reply("1.2.3.4:80", ProbeOutcome::Failed("denied".to_string())).unwrap_err();
    assert_eq!(err, "Cannot connect to '1.2.3.4:80': denied");
}
