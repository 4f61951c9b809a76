use fluxion::stages::{
    export_reply, fetch_csv, fetch_reply, io_failure, normalize_csv, normalize_reply,
    normalized_csv_path, parse_stage_command, raw_csv_path, stage_command_of, validate_csv, validate_stage,
    vehicles_csv_path, zero_pad, StageCommand,
};

fn pairs(m: &[(String, String)]) -> Vec<(&str, &str)> {
    m.iter().map(|(k, v)| (k.as_str(), v.as_str())).collect()
}

#[test]
fn stage_commands() {
    assert!(matches!(parse_stage_command("fetch:/tmp/a"), Ok(StageCommand::Fetch { dir }) if dir == "/tmp/a"));
    assert!(matches!(parse_stage_command("  normalize:/d \n"), Ok(StageCommand::Normalize { dir }) if dir == "/d"));
    assert!(matches!(parse_stage_command("validate:x"), Ok(StageCommand::Validate { dir }) if dir == "x"));
    assert!(matches!(parse_stage_command("export:/a:/b"),
        Ok(StageCommand::Export { src, dst }) if src == "/a" && dst == "/b"));
    // The destination keeps any further colons.
    assert!(matches!(parse_stage_command("export:/a:/b:c"),
        Ok(StageCommand::Export { src, dst }) if src == "/a" && dst == "/b:c"));
    // An empty directory is still a directory.
    assert!(matches!(parse_stage_command("fetch:"), Ok(StageCommand::Fetch { dir }) if dir.is_empty()));
}

#[test]
fn unknown_stage_commands() {
    for cmd in ["fetch", "fetch:a:b", "export:a", "compress:/d", "", " bogus "] {
        let err = parse_stage_command(cmd).err().expect("should be refused");
        assert_eq!(err, format!("Unknown stage command: {}", cmd.trim()));
    }
}

#[test]
fn vehicle_data() {
    let csv = fetch_csv();
    let lines: Vec<&str> = csv.lines().collect();
    assert_eq!(lines.len(), 201);
    assert_eq!(lines[0], "id,make,model,year,vin,mileage");
    assert_eq!(lines[1], "1,Toyota,Camry,2016,1HGCM00000000001,6247");
    assert_eq!(lines[8], "8,Hyundai,Elantra,2023,1HGCM00000000008,14976");
    assert_eq!(lines[184], "184,Hyundai,Elantra,1999,1HGCM00000000184,74448");
    assert_eq!(lines[200], "200,Hyundai,Elantra,2017,1HGCM00000000200,14400");
    assert!(csv.ends_with('\n'));
    assert_eq!(csv.matches(",1999,").count(), 1);
}

#[test]
fn zero_padding() {
    assert_eq!(zero_pad(7, 11), "00000000007");
    assert_eq!(zero_pad(123, 2), "123");
    assert_eq!(zero_pad(0, 0), "0");
}

#[test]
fn normalize_trims_every_field() {
    let (out, rows) = normalize_csv("id , make\r\n 1,  Ford \n\n2,x");
    assert_eq!(out, "id,make\n1,Ford\n\n2,x\n");
    assert_eq!(rows, 3);
    let (out, rows) = normalize_csv("");
    assert_eq!(out, "\n");
    assert_eq!(rows, 0);
    let (out, rows) = normalize_csv("header only\n");
    assert_eq!(out, "header only\n");
    assert_eq!(rows, 0);
}

#[test]
fn validate_reports_the_first_bad_row() {
    assert_eq!(validate_csv("h\n1,a,b,2000\n2,a,b,2025,x", "p"), Ok(()));
    assert_eq!(validate_csv("", "p"), Ok(()));
    assert_eq!(validate_csv("h\n1,a,b\n2,a,b,1", "p"), Err("malformed row 1 (expected 6 fields, got 3)".to_string()));
    assert_eq!(
        validate_csv("h\n1,a,b,2001\n2,a,b,soon", "p"),
        Err("invalid registration_year at row 2 (not a number)".to_string())
    );
    assert_eq!(
        validate_csv("h\n1,a,b,1999\n", "/d/normalized.csv"),
        Err("invalid registration_year at row 1 (year=1999, must be 2000-2025)\nFix: sed -i '2s/1999/2019/' /d/normalized.csv\nThen retry from validate".to_string())
    );
    assert_eq!(
        validate_csv("h\n1,a,b,2026", "p"),
        Err("invalid registration_year at row 1 (year=2026, must be 2000-2025)\nFix: sed -i '2s/2026/2019/' p\nThen retry from validate".to_string())
    );
}

#[test]
fn vehicle_data_fails_validation_until_fixed() {
    let path = normalized_csv_path("/work");
    let (normalized, rows) = normalize_csv(&fetch_csv());
    assert_eq!(rows, 200);
    let err = validate_stage(&normalized, &path).err().expect("row 184 has a bad year");
    assert!(err.starts_with("invalid registration_year at row 184 (year=1999"));
    assert!(err.contains("sed -i '185s/1999/2019/' /work/normalized.csv"));
    let fixed = normalized.replace(",1999,", ",2019,");
    let reply = validate_stage(&fixed, &path).expect("fixed data is valid");
    assert_eq!(reply.content, "All 200 rows valid");
    assert_eq!(pairs(&reply.metadata), vec![("status", "valid")]);
}

#[test]
fn stage_paths_and_replies() {
    assert_eq!(raw_csv_path("/d"), "/d/raw.csv");
    assert_eq!(normalized_csv_path("/d"), "/d/normalized.csv");
    assert_eq!(vehicles_csv_path("/o"), "/o/vehicles.csv");
    assert_eq!(io_failure("read", "/d/raw.csv", "gone"), "Cannot read /d/raw.csv: gone");
    let f = fetch_reply("/d/raw.csv");
    assert_eq!(f.content, "Wrote 200 rows to /d/raw.csv");
    assert_eq!(pairs(&f.metadata), vec![("rows", "200")]);
    let n = normalize_reply(200, "/d/normalized.csv");
    assert_eq!(n.content, "Normalized 200 rows -> /d/normalized.csv");
    assert_eq!(pairs(&n.metadata), vec![("rows", "200")]);
    let e = export_reply(9876, "/o/vehicles.csv");
    assert_eq!(e.content, "Exported 9876 bytes -> /o/vehicles.csv");
    assert_eq!(pairs(&e.metadata), vec![("output", "/o/vehicles.csv"), ("bytes", "9876")]);
}

#[test]
fn stage_command_from_task_input() {
    assert!(matches!(stage_command_of(b" validate:/w ".to_vec()), Ok(StageCommand::Validate { dir }) if dir == "/w"));
    let err = stage_command_of(vec![0xff]).unwrap_err();
    assert_eq!(err, String::from_utf8(vec![0xff]).unwrap_err().to_string());
    assert_eq!(stage_command_of(b"nope".to_vec()).unwrap_err(), "Unknown stage command: nope");
}
