use rand::SeedableRng;
use wal_sim::generator::generate_next;
use wal_sim::pipeline::{
    check_finalizable, consumer_pass, emit_marker, processor_pass, remove_marker, select_finalizable,
    PendingRecord, PipelineState,
};
use wal_sim::utilities::FileEntry;
use wal_sim::wal::{WalAction, WalError, WalFile};

fn record(seq: u64, action: WalAction) -> PendingRecord {
    PendingRecord { seq, action, duration: 0, finalized: false }
}

#[test]
fn marker_cleanup_is_not_idempotent() {
    let mut markers: Vec<u64> = Vec::new();
    emit_marker(&mut markers, 7);
    // emitting again is idempotent
    emit_marker(&mut markers, 7);
    assert_eq!(markers, vec![7]);

    assert!(remove_marker(&mut markers, 7).is_ok());
    assert!(markers.is_empty());
    // deleting an already-deleted marker is an IoError, not a silent no-op
    assert!(matches!(remove_marker(&mut markers, 7), Err(WalError::IoError)));
}

#[test]
fn end_to_end_forced_failure_trace() {
    // seed 42, one record forced to Fail{remaining: 2} with duration 0
    let mut rng = rand_chacha::ChaCha8Rng::seed_from_u64(42);
    let w = generate_next(&mut rng, 0, true, 2, 3, 0, 1);
    assert_eq!(w.action, WalAction::Fail { remaining: 2 });
    assert_eq!(w.duration, 0);
    assert_eq!(w.file_name, "file-source/file-status/000000010000000000000000.ready");

    let mut st = PipelineState { pending: vec![record(0, w.action)], markers: vec![] };
    let mut processed: Vec<u64> = Vec::new();

    // processor pass 1: the record is rewritten in place as Fail{remaining: 1}
    assert!(processor_pass(&mut st, &mut processed));
    assert_eq!(st.pending[0].action, WalAction::Fail { remaining: 1 });
    assert!(st.markers.is_empty());
    assert!(!st.pending[0].finalized);

    // processor pass 2: the record converts to Success and the marker appears
    assert!(processor_pass(&mut st, &mut processed));
    assert_eq!(st.pending[0].action, WalAction::Success);
    assert_eq!(st.markers, vec![0]);

    // processor pass 3: nothing left to take on — the loop terminates
    assert!(!processor_pass(&mut st, &mut processed));

    // consumer pass: finalizes the record and deletes the marker
    assert_eq!(consumer_pass(&mut st).unwrap(), true);
    assert!(st.pending[0].finalized);
    assert_eq!(st.pending[0].action, WalAction::Success);
    assert!(st.markers.is_empty());

    // consumer sees nothing more to do and terminates
    assert_eq!(consumer_pass(&mut st).unwrap(), false);

    // final state: exactly one terminal record, an empty acknowledgement dir
    assert_eq!(st.pending.len(), 1);
    assert!(st.markers.is_empty());
}

#[test]
fn empty_backlog_terminates_both_services() {
    let mut st = PipelineState { pending: vec![], markers: vec![] };
    let mut processed: Vec<u64> = Vec::new();
    assert!(!processor_pass(&mut st, &mut processed));
    assert_eq!(consumer_pass(&mut st).unwrap(), false);
    assert!(st.pending.is_empty());
    assert!(st.markers.is_empty());
    assert!(processed.is_empty());
}

#[test]
fn interleaved_passes_never_violate_causal_order() {
    // several records in mixed states, processor and consumer passes
    // interleaved in different orders: the consumer must never meet a
    // record that still carries failure state
    for consumer_every in 1..4usize {
        let mut st = PipelineState {
            pending: vec![
                record(1, WalAction::Fail { remaining: 3 }),
                record(2, WalAction::Success),
                record(3, WalAction::Fail { remaining: 1 }),
                record(4, WalAction::Fail { remaining: 2 }),
                record(5, WalAction::Success),
            ],
            markers: vec![],
        };
        let mut processed: Vec<u64> = Vec::new();
        let mut rounds = 0usize;
        loop {
            let worked = processor_pass(&mut st, &mut processed);
            rounds += 1;
            if rounds % consumer_every == 0 {
                // a ProtocolViolation would come back as an error here
                consumer_pass(&mut st).unwrap();
            }
            if !worked {
                break;
            }
        }
        consumer_pass(&mut st).unwrap();
        for r in &st.pending {
            assert_eq!(r.action, WalAction::Success);
            assert!(r.finalized);
        }
        assert!(st.markers.is_empty());
    }
}

#[test]
fn finalize_check_rejects_failure_state() {
    let ok = WalFile { action: WalAction::Success, duration: 1, file_name: "a.ready".to_string() };
    assert!(check_finalizable(&ok).is_ok());
    let bad = WalFile {
        action: WalAction::Fail { remaining: 2 },
        duration: 1,
        file_name: "a.ready".to_string(),
    };
    assert!(matches!(check_finalizable(&bad), Err(WalError::ProtocolViolation)));
}

#[test]
fn select_finalizable_matches_by_base_name() {
    let ready = vec![
        FileEntry::new("file-source/file-status/0001.ready".to_string()),
        FileEntry::new("file-source/file-status/0002.ready".to_string()),
        FileEntry::new("file-source/file-status/0003.ready".to_string()),
    ];
    let done_names = vec!["0003".to_string(), "0001".to_string()];
    let picked = select_finalizable(&ready, &done_names);
    assert_eq!(picked.len(), 2);
    assert_eq!(picked[0].file_name, "0001");
    assert_eq!(picked[1].file_name, "0003");
}

#[test]
fn generator_draws_stay_in_their_ranges() {
    let mut rng = rand_chacha::ChaCha8Rng::seed_from_u64(42);
    let w = generate_next(&mut rng, 9, true, 1, 100, 10, 1000);
    match w.action {
        WalAction::Fail { remaining } => assert!((1..100).contains(&remaining)),
        WalAction::Success => panic!("a forced failure came out successful"),
    }
    assert!(w.duration >= 10 && w.duration < 1000);

    let w2 = generate_next(&mut rng, 10, false, 1, 2, 5, 6);
    assert_eq!(w2.action, WalAction::Success);
    assert_eq!(w2.duration, 5);
    assert_eq!(w2.file_name, "file-source/file-status/00000001000000000000000A.ready");
}
