use fluxion::state::JobStatus;
use fluxion::store::{parse_status, run_id, run_status_label, serialize_status};

#[test]
fn status_rows() {
    assert_eq!(serialize_status(&JobStatus::Succeeded { elapsed_ms: 2100 }), ("succeeded", Some(2100), None));
    assert_eq!(
        serialize_status(&JobStatus::Failed { elapsed_ms: 5, reason: "bad".to_string() }),
        ("failed", Some(5), Some("bad".to_string()))
    );
    assert_eq!(serialize_status(&JobStatus::Cancelled), ("cancelled", None, None));
    assert_eq!(serialize_status(&JobStatus::Running), ("running", None, None));
    assert_eq!(serialize_status(&JobStatus::Pending), ("pending", None, None));
}

#[test]
fn status_roundtrip() {
    let all = vec![
        JobStatus::Succeeded { elapsed_ms: 12 },
        JobStatus::Failed { elapsed_ms: 3, reason: "year=1999".to_string() },
        JobStatus::Cancelled,
        JobStatus::Pending,
    ];
    for s in all {
        let (label, ms, reason) = serialize_status(&s);
        let back = parse_status(label, ms, reason);
        assert_eq!(format!("{:?}", back), format!("{:?}", s));
    }
    let (label, ms, reason) = serialize_status(&JobStatus::Running);
    assert!(matches!(parse_status(label, ms, reason), JobStatus::Pending));
}

#[test]
fn reading_partial_rows() {
    assert!(matches!(parse_status("succeeded", None, None), JobStatus::Succeeded { elapsed_ms: 0 }));
    match parse_status("failed", Some(9), None) {
        JobStatus::Failed { elapsed_ms, reason } => {
            assert_eq!(elapsed_ms, 9);
            assert_eq!(reason, "");
        }
        _ => panic!("expected a failure"),
    }
    assert!(matches!(parse_status("weird", Some(1), None), JobStatus::Pending));
}

#[test]
fn run_ids_and_labels() {
    assert_eq!(run_id(1782049716, 310867), "run-1782049716-310867");
    assert_eq!(run_id(0, 7), "run-0-7");
    assert_eq!(run_status_label(true), "succeeded");
    assert_eq!(run_status_label(false), "failed");
}
