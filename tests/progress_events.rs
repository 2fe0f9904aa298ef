use git_mirror::progress::{
    phase_display_of, PackStage, ProgressEvent, ProgressIndicator, SidebandEvent, TransportEvent, RATE_DEBOUNCE_MS,
};

fn progress_of(e: &SidebandEvent) -> (String, usize, usize, usize, bool) {
    match e {
        SidebandEvent::Progress(p) => (p.prefix.clone(), p.percent, p.m, p.n, p.done),
        SidebandEvent::Message(m) => panic!("expected a progress line, got message {:?}", m),
    }
}

fn message_of(e: &SidebandEvent) -> String {
    match e {
        SidebandEvent::Message(m) => m.clone(),
        SidebandEvent::Progress(p) => panic!("expected a message, got progress {:?}", p.prefix),
    }
}

#[test]
fn line_split_across_two_calls() {
    let mut r = ProgressIndicator::new();
    let first = r.on_sideband(b"Receiving obje");
    assert!(first.is_empty());
    assert_eq!(r.pending().as_slice(), b"Receiving obje");
    let second = r.on_sideband(b"cts:  50% (10/20)\n");
    assert_eq!(second.len(), 1);
    assert_eq!(progress_of(&second[0]), ("Receiving objects".to_string(), 50, 10, 20, false));
    assert!(r.pending().is_empty());
}

#[test]
fn several_lines_in_one_call() {
    let mut r = ProgressIndicator::new();
    let events = r.on_sideband(b"Counting objects: 100% (5/5), done.\n\nhello there  \r\nCompress");
    assert_eq!(events.len(), 2);
    assert_eq!(progress_of(&events[0]), ("Counting objects".to_string(), 100, 5, 5, true));
    assert_eq!(message_of(&events[1]), "hello there");
    assert_eq!(r.pending().as_slice(), b"Compress");
}

#[test]
fn blank_lines_report_nothing() {
    let mut r = ProgressIndicator::new();
    assert!(r.on_sideband(b"\n \n\t\r\n").is_empty());
    assert!(r.pending().is_empty());
}

#[test]
fn invalid_utf8_is_replaced() {
    let mut r = ProgressIndicator::new();
    let events = r.on_sideband(b"bad \xff byte\n");
    assert_eq!(events.len(), 1);
    assert_eq!(message_of(&events[0]), "bad \u{fffd} byte");
}

#[test]
fn first_transfer_sample_sets_baseline() {
    let mut r = ProgressIndicator::new();
    let u = r.on_transfer(10, 3, 1000, 42);
    assert_eq!((u.total_objects, u.received_objects, u.received_bytes), (10, 3, 1000));
    assert!(u.rate.is_none());
    assert_eq!(r.last_sample(), Some((42, 1000)));
}

#[test]
fn rate_waits_for_debounce() {
    let mut r = ProgressIndicator::new();
    r.on_transfer(10, 1, 0, 1000);
    let early = r.on_transfer(10, 2, 5000, 1499);
    assert!(early.rate.is_none());
    assert_eq!(r.last_sample(), Some((1000, 0)));
    let due = r.on_transfer(10, 3, 4096, 2000);
    let rate = due.rate.expect("rate after a second");
    assert_eq!(rate.elapsed_ms, 1000);
    assert_eq!(rate.delta_bytes, 4096);
    assert_eq!(rate.bytes_per_sec, 4096);
    assert_eq!(r.last_sample(), Some((2000, 4096)));
}

#[test]
fn rate_at_threshold_exactly() {
    let mut r = ProgressIndicator::new();
    r.on_transfer(1, 0, 100, 0);
    let u = r.on_transfer(1, 0, 1100, RATE_DEBOUNCE_MS);
    let rate = u.rate.expect("rate at the threshold");
    assert_eq!(rate.elapsed_ms, 500);
    assert_eq!(rate.bytes_per_sec, 2000);
}

#[test]
fn rate_never_uses_short_delta() {
    let mut r = ProgressIndicator::new();
    let mut now = 0u64;
    for step in 0..200u64 {
        now += 37 + (step % 11) * 13;
        let u = r.on_transfer(100, 1, (step as usize) * 512, now);
        if let Some(rate) = u.rate {
            assert!(rate.elapsed_ms >= RATE_DEBOUNCE_MS);
        }
    }
}

#[test]
fn clock_going_back_publishes_nothing() {
    let mut r = ProgressIndicator::new();
    r.on_transfer(1, 0, 0, 5000);
    assert!(r.on_transfer(1, 0, 10, 100).rate.is_none());
    assert_eq!(r.last_sample(), Some((5000, 0)));
}

#[test]
fn byte_count_going_down_gives_zero_delta() {
    let mut r = ProgressIndicator::new();
    r.on_transfer(1, 0, 900, 0);
    let rate = r.on_transfer(1, 0, 100, 1000).rate.expect("rate");
    assert_eq!(rate.delta_bytes, 0);
    assert_eq!(rate.bytes_per_sec, 0);
}

#[test]
fn progress_line_drops_rate_baseline() {
    let mut r = ProgressIndicator::new();
    r.on_transfer(1, 0, 10, 0);
    r.on_sideband(b"just a message\n");
    assert_eq!(r.last_sample(), Some((0, 10)));
    r.on_sideband(b"Resolving deltas: 10% (1/10)\n");
    assert_eq!(r.last_sample(), None);
}

#[test]
fn dispatcher_routes_every_kind() {
    let mut r = ProgressIndicator::new();
    match r.handle(TransportEvent::Transfer {
        total_objects: 4,
        received_objects: 2,
        received_bytes: 64,
        now_ms: 7,
    }) {
        ProgressEvent::Transfer(u) => assert_eq!((u.total_objects, u.received_objects), (4, 2)),
        _ => panic!("expected a transfer event"),
    }
    match r.handle(TransportEvent::Sideband(b"Counting objects: 1% (1/100)\n".to_vec())) {
        ProgressEvent::Sideband(lines) => assert_eq!(lines.len(), 1),
        _ => panic!("expected sideband lines"),
    }
    match r.handle(TransportEvent::PackStage { stage: PackStage::Deltafication, current: 3, total: 9 }) {
        ProgressEvent::Pack { stage, current, total } => {
            assert_eq!(stage, PackStage::Deltafication);
            assert_eq!((current, total), (3, 9));
        }
        _ => panic!("expected a pack event"),
    }
    match r.handle(TransportEvent::RefUpdate {
        name: "refs/heads/main".to_string(),
        old_id: vec![0u8; 20],
        new_id: vec![7u8; 20],
    }) {
        ProgressEvent::RefUpdate(u) => {
            assert_eq!(u.name, "refs/heads/main");
            assert!(u.created);
            assert_eq!(u.new_id, vec![7u8; 20]);
        }
        _ => panic!("expected a ref update"),
    }
}

#[test]
fn ref_update_with_old_id_is_not_creation() {
    let mut r = ProgressIndicator::new();
    let mut old = vec![0u8; 20];
    old[19] = 1;
    let u = r.on_update_tips("refs/tags/v1".to_string(), old.clone(), vec![2u8; 20]);
    assert!(!u.created);
    assert_eq!(u.old_id, old);
}

fn describe(events: &[SidebandEvent]) -> Vec<String> {
    events
        .iter()
        .map(|e| match e {
            SidebandEvent::Progress(p) => format!("P {} {} {} {} {}", p.prefix, p.percent, p.m, p.n, p.done),
            SidebandEvent::Message(m) => format!("M {}", m),
        })
        .collect()
}

#[test]
fn cutting_the_stream_anywhere_changes_nothing() {
    let stream: &[u8] = b"Counting objects: 10% (1/10)\nremote: hi\r\nCompressing objects: 100% (2/2), done.\npartial";
    let mut whole = ProgressIndicator::new();
    let expected = describe(&whole.on_sideband(stream));
    assert_eq!(expected.len(), 3);
    for cut in 0..=stream.len() {
        let mut r = ProgressIndicator::new();
        let mut got = describe(&r.on_sideband(&stream[..cut]));
        got.extend(describe(&r.on_sideband(&stream[cut..])));
        assert_eq!(got, expected, "cut at {}", cut);
        assert_eq!(r.pending(), whole.pending());
    }
}

#[test]
fn progress_line_display() {
    let mut r = ProgressIndicator::new();
    let events = r.on_sideband(b"Receiving objects:  50% (10/20)\n");
    let p = match &events[0] {
        SidebandEvent::Progress(p) => p,
        _ => panic!("expected a progress line"),
    };
    let shown = phase_display_of(p);
    assert_eq!((shown.length, shown.position), (100, 50));
    assert_eq!(shown.message, "Receiving objects 10/20");
    assert!(shown.printed.is_none());
}

#[test]
fn done_line_display_resets_bar() {
    let mut r = ProgressIndicator::new();
    let events = r.on_sideband(b"Compressing objects: 100% (129/146), done.\n");
    let p = match &events[0] {
        SidebandEvent::Progress(p) => p,
        _ => panic!("expected a progress line"),
    };
    let shown = phase_display_of(p);
    assert_eq!((shown.length, shown.position), (0, 0));
    assert_eq!(shown.message, "");
    assert_eq!(shown.printed.as_deref(), Some("Compressing objects done"));
}
