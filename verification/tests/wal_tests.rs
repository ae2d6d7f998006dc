use wal_sim::codec;
use wal_sim::utilities::FileEntry;
use wal_sim::utilities::{get_done_files, get_ready_files};
use wal_sim::wal::{mark_terminal_check, WalAction, WalError, WalFile};

#[test]
fn serialization_ignore_file_name() {
    let x = WalFile { action: WalAction::Success, duration: 10, file_name: "test".to_string() };
    let y: WalFile = codec::decode(&codec::encode(&x)).unwrap();
    assert!(y.file_name.is_empty());

    let x = WalFile {
        action: WalAction::Fail { remaining: 100 },
        duration: 10,
        file_name: "test".to_string(),
    };
    let y: WalFile = codec::decode(&codec::encode(&x)).unwrap();
    assert!(y.file_name.is_empty());
}

#[test]
fn serialization_format() {
    let x = WalFile { action: WalAction::Success, duration: 10, file_name: "test".to_string() };
    assert_eq!("{\"action\":\"Success\",\"duration\":10}", codec::encode(&x));

    let x = WalFile {
        action: WalAction::Fail { remaining: 10 },
        duration: 100,
        file_name: "test".to_string(),
    };
    assert_eq!(
        "{\"action\":{\"Fail\":{\"remaining\":10}},\"duration\":100}",
        codec::encode(&x)
    );
}

#[test]
fn wal_file_number() {
    let w = WalFile::generate_wal_file(1, WalAction::Success, 10);
    let expected_w = "file-source/file-status/000000010000000000000001.ready";
    assert_eq!(expected_w, w.file_name);

    let w = WalFile::generate_wal_file(255, WalAction::Success, 10);
    let expected_w = "file-source/file-status/0000000100000000000000FF.ready";
    assert_eq!(expected_w, w.file_name);
}

#[test]
fn round_trip_preserves_action_and_duration() {
    let cases = vec![
        (WalAction::Success, 0u64),
        (WalAction::Success, u64::MAX),
        (WalAction::Fail { remaining: 1 }, 42),
        (WalAction::Fail { remaining: u16::MAX }, 123456789),
    ];
    for (action, duration) in cases {
        let x = WalFile { action, duration, file_name: "somewhere.ready".to_string() };
        let y = codec::decode(&codec::encode(&x)).unwrap();
        assert_eq!(x.action, y.action);
        assert_eq!(x.duration, y.duration);
        assert!(y.file_name.is_empty());
    }
}

#[test]
fn decode_strips_trailing_nul_padding() {
    let mut payload = codec::encode(&WalFile {
        action: WalAction::Fail { remaining: 3 },
        duration: 7,
        file_name: String::new(),
    });
    payload.push_str("\0\0\0\0");
    let y = codec::decode(&payload).unwrap();
    assert_eq!(y.action, WalAction::Fail { remaining: 3 });
    assert_eq!(y.duration, 7);
}

#[test]
fn decode_rejects_malformed_payloads() {
    let bad = vec![
        "",
        "{}",
        "{\"action\":\"Success\",\"duration\":}",
        "{\"action\":\"Success\",\"duration\":007}",
        "{\"action\":\"Success\",\"duration\":10",
        "{\"action\":\"Success\",\"duration\":10} ",
        "{\"action\":{\"Fail\":{\"remaining\":70000}},\"duration\":1}",
        "{\"action\":{\"Fail\":{\"remaining\":-1}},\"duration\":1}",
        "{\"action\":\"Success\",\"duration\":18446744073709551616}",
        "{\"duration\":10,\"action\":\"Success\"}",
    ];
    for payload in bad {
        let res = codec::decode(payload);
        assert!(matches!(res, Err(WalError::DecodeError)), "accepted: {}", payload);
    }
}

#[test]
fn decrement_converges_and_never_reaches_zero() {
    let mut w = WalFile {
        action: WalAction::Fail { remaining: 3 },
        duration: 5,
        file_name: "x.ready".to_string(),
    };
    let mut steps = 0;
    while matches!(w.action, WalAction::Fail { .. }) {
        w.decrement_failure_count().unwrap();
        steps += 1;
        assert!(!matches!(w.action, WalAction::Fail { remaining: 0 }));
    }
    assert_eq!(steps, 3);
    assert_eq!(w.action, WalAction::Success);

    let mut w = WalFile {
        action: WalAction::Fail { remaining: 1 },
        duration: 5,
        file_name: "x.ready".to_string(),
    };
    w.decrement_failure_count().unwrap();
    assert_eq!(w.action, WalAction::Success);

    // already successful: a no-op
    w.decrement_failure_count().unwrap();
    assert_eq!(w.action, WalAction::Success);
    assert_eq!(w.duration, 5);
    assert_eq!(w.file_name, "x.ready");
}

#[test]
fn save_payload_needs_an_identity() {
    let w = WalFile { action: WalAction::Success, duration: 9, file_name: String::new() };
    assert!(matches!(w.save_payload(), Err(WalError::IoError)));

    let w = WalFile { action: WalAction::Success, duration: 9, file_name: "a.ready".to_string() };
    assert_eq!(w.save_payload().unwrap(), "{\"action\":\"Success\",\"duration\":9}");
}

#[test]
fn done_and_marker_paths() {
    let w = WalFile {
        action: WalAction::Success,
        duration: 0,
        file_name: "file-source/file-status/00AB.ready".to_string(),
    };
    assert_eq!(w.done_path(), "file-source/file-status/00AB.done");
    assert_eq!(w.marker_path(), "file-source/00AB.done");
}

#[test]
fn generated_names_never_collide() {
    let names: Vec<String> = (0..50u64)
        .map(|n| WalFile::generate_wal_file(n, WalAction::Success, 0).file_name)
        .collect();
    for i in 0..names.len() {
        for j in 0..i {
            assert_ne!(names[i], names[j]);
        }
    }
}

#[test]
fn finalizing_refuses_a_taken_terminal_name() {
    assert!(mark_terminal_check(false).is_ok());
    assert!(matches!(mark_terminal_check(true), Err(WalError::NamingCollision)));
}

#[test]
fn file_entry_splits_name_and_extension() {
    let e = FileEntry::new("file-source/file-status/00AB.ready".to_string());
    assert_eq!(e.file_name, "00AB");
    assert_eq!(e.file_extension, "ready");
    assert_eq!(e.full_path, "file-source/file-status/00AB.ready");

    let e = FileEntry::new("plain.done".to_string());
    assert_eq!(e.file_name, "plain");
    assert_eq!(e.file_extension, "done");
}

#[test]
fn scans_filter_by_extension() {
    let paths = vec![
        "file-source/file-status/0001.ready".to_string(),
        "file-source/file-status/0002.done".to_string(),
        "file-source/file-status/0003.ready".to_string(),
        "file-source/notes.txt".to_string(),
        "short".to_string(),
    ];
    let ready = get_ready_files(&paths);
    assert_eq!(ready.len(), 2);
    assert_eq!(ready[0].file_name, "0001");
    assert_eq!(ready[1].file_name, "0003");
    assert_eq!(ready[0].file_extension, "ready");

    let done = get_done_files(&paths);
    assert_eq!(done.len(), 1);
    assert_eq!(done[0].full_path, "file-source/file-status/0002.done");
}
