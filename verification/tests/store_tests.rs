use vibeserial::store::{
    decode_snapshot, encode_snapshot, escape, project_id_of, project_ids_from_file_names,
    snapshot_file_name, unescape, ProjectSnapshot, ProjectStore, SessionProfile, StoreError,
};

#[test]
fn save_and_load_should_work() {
    let store = ProjectStore::new("/tmp/vibeserial-projects");

    let mut snapshot = ProjectSnapshot::new("p1", "demo");
    snapshot.sessions.push(SessionProfile {
        session_id: "s1".to_string(),
        endpoint: "/dev/ttyUSB0".to_string(),
        baud_rate: 115_200,
    });
    snapshot.task_ids.push("task-a".to_string());
    snapshot.log_files.push("logs/2026-02-24.log".to_string());

    let content = encode_snapshot(&snapshot);
    assert_eq!(store.root_dir(), "/tmp/vibeserial-projects");
    assert_eq!(snapshot_file_name("p1"), "p1.vsp");
    let loaded = decode_snapshot(&content).unwrap();

    assert_eq!(loaded.project_id, "p1");
    assert_eq!(loaded.sessions.len(), 1);
    assert_eq!(loaded.task_ids, vec!["task-a"]);
}

#[test]
fn list_project_ids_should_sort() {
    let names = vec![
        "b.vsp".to_string(),
        "a.vsp".to_string(),
        "notes.txt".to_string(),
        ".vsp".to_string(),
        "x.y.vsp".to_string(),
    ];
    let ids = project_ids_from_file_names(&names);
    assert_eq!(ids, vec!["a".to_string(), "b".to_string(), "x.y".to_string()]);
}

#[test]
fn encode_format_is_line_based() {
    let snapshot = ProjectSnapshot {
        project_id: "p|1".to_string(),
        name: "a\\b\nc".to_string(),
        updated_at_ms: 1_700_000_000_123,
        sessions: vec![SessionProfile {
            session_id: "s".to_string(),
            endpoint: "COM3".to_string(),
            baud_rate: 9600,
        }],
        task_ids: vec![],
        log_files: vec!["l".to_string()],
    };
    let text = encode_snapshot(&snapshot);
    assert_eq!(
        text,
        "PROJECT_ID=p\\p1\nNAME=a\\\\b\\nc\nUPDATED_AT_MS=1700000000123\nSESSIONS=1\nSESSION|s|COM3|9600\nTASKS=0\nLOGS=1\nLOG|l"
    );
    let back = decode_snapshot(&text).unwrap();
    assert_eq!(back.project_id, "p|1");
    assert_eq!(back.name, "a\\b\nc");
    assert_eq!(back.updated_at_ms, 1_700_000_000_123);
    assert_eq!(back.sessions[0].endpoint, "COM3");
    assert_eq!(back.sessions[0].baud_rate, 9600);
    assert_eq!(back.log_files, vec!["l"]);
}

#[test]
fn escape_roundtrip_values() {
    assert_eq!(escape("a|b\\c\nd"), "a\\pb\\\\c\\nd");
    assert_eq!(unescape(&escape("x|y\\z\n")), "x|y\\z\n");
    assert_eq!(unescape("\\q"), "\\q");
    assert_eq!(unescape("end\\"), "end\\");
}

fn parse_message(res: Result<ProjectSnapshot, StoreError>) -> String {
    match res {
        Err(StoreError::Parse(m)) => m,
        _ => panic!("expected a parse error"),
    }
}

#[test]
fn decode_errors() {
    assert_eq!(parse_message(decode_snapshot("NAME=x\nUPDATED_AT_MS=1")), "missing PROJECT_ID");
    assert_eq!(parse_message(decode_snapshot("PROJECT_ID=x\nUPDATED_AT_MS=1")), "missing NAME");
    assert_eq!(parse_message(decode_snapshot("PROJECT_ID=x\nNAME=y")), "missing UPDATED_AT_MS");
    assert_eq!(
        parse_message(decode_snapshot("PROJECT_ID=x\nUPDATED_AT_MS=soon")),
        "invalid UPDATED_AT_MS"
    );
    assert_eq!(parse_message(decode_snapshot("SESSION|a|b")), "invalid SESSION line");
    assert_eq!(parse_message(decode_snapshot("SESSION|a|b|fast")), "invalid session baud_rate");
    assert_eq!(
        StoreError::Parse("missing NAME".to_string()).message(),
        "parse error: missing NAME"
    );
}

#[test]
fn decode_keeps_last_value_and_ignores_unknown_lines() {
    let text = "PROJECT_ID=a\r\nPROJECT_ID=b\nNAME=n\nUPDATED_AT_MS=+7\nWHATEVER\nTASK|t1\nTASK|t2\n";
    let s = decode_snapshot(text).unwrap();
    assert_eq!(s.project_id, "b");
    assert_eq!(s.updated_at_ms, 7);
    assert_eq!(s.task_ids, vec!["t1", "t2"]);
}

#[test]
fn project_id_of_file_names() {
    assert_eq!(project_id_of("demo.vsp"), Some("demo".to_string()));
    assert_eq!(project_id_of(".vsp"), None);
    assert_eq!(project_id_of("demo.vsp.bak"), None);
    assert_eq!(project_id_of("demo"), None);
}

#[test]
fn touch_keeps_contents() {
    let mut s = ProjectSnapshot::new("p", "n");
    s.task_ids.push("t".to_string());
    s.touch();
    assert_eq!(s.project_id, "p");
    assert_eq!(s.task_ids, vec!["t"]);
}

#[test]
fn new_at_and_stamp_set_the_time() {
    let mut s = ProjectSnapshot::new_at("p", "n", 1234);
    assert_eq!(s.updated_at_ms, 1234);
    assert!(s.sessions.is_empty());
    s.task_ids.push("t".to_string());
    s.stamp(99);
    assert_eq!(s.updated_at_ms, 99);
    assert_eq!(s.task_ids, vec!["t"]);
    assert_eq!(s.name, "n");
}
