use fghj::daemon_log::{info, tail, warn, Log, LogEntry, CAPACITY};

#[test]
fn tail_without_after_seq_respects_the_limit_and_stays_ordered() {
    let mut log = Log::new();
    for i in 0..10 {
        info(&mut log, 0, format!("daemon_log test limit-marker {i}"));
    }
    let recent = tail(&log, None, 3);
    assert_eq!(recent.len(), 3);
    assert!(recent.windows(2).all(|w| w[0].seq < w[1].seq));
}

#[test]
fn tail_after_seq_returns_only_newer_entries_in_order() {
    let mut log = Log::new();
    info(&mut log, 0, "before".to_string());
    let baseline = tail(&log, None, 1).last().map(|e| e.seq).unwrap_or(0);
    for i in 0..5 {
        info(&mut log, 0, format!("daemon_log test after-marker {i}"));
    }
    let newer = tail(&log, Some(baseline), 10_000);
    let ours: Vec<&LogEntry> = newer
        .iter()
        .filter(|e| e.message.starts_with("daemon_log test after-marker "))
        .collect();
    assert_eq!(ours.len(), 5);
    assert!(ours.windows(2).all(|w| w[0].seq < w[1].seq));
    assert!(newer.iter().all(|e| e.seq > baseline));
}

#[test]
fn warn_records_the_warn_level() {
    let mut log = Log::new();
    warn(&mut log, 7, "daemon_log test warn-marker".to_string());
    let recent = tail(&log, None, 50);
    let found = recent
        .iter()
        .rev()
        .find(|e| e.message == "daemon_log test warn-marker")
        .expect("just-pushed warn entry should be in the recent tail");
    assert_eq!(found.level, "warn");
    assert_eq!(found.ts_ms, 7);
}

#[test]
fn writers_cannot_append_out_of_seq_order() {
    let mut log = Log::new();
    for t in 0..8 {
        for i in 0..50 {
            info(&mut log, t, format!("daemon_log test race-marker {t}-{i}"));
        }
    }
    let all = tail(&log, None, CAPACITY);
    assert_eq!(all.len(), 400);
    assert!(all.windows(2).all(|w| w[0].seq < w[1].seq));
}

#[test]
fn the_oldest_messages_give_way() {
    let mut log = Log::new();
    for i in 0..(CAPACITY as u64 + 3) {
        info(&mut log, i, format!("{i}"));
    }
    assert_eq!(log.len(), CAPACITY);
    let all = tail(&log, None, usize::MAX);
    assert_eq!(all[0].message, "3");
    assert_eq!(all.last().unwrap().message, format!("{}", CAPACITY + 2));
}

#[test]
fn a_reader_that_follows_on_sees_every_message() {
    let mut log = Log::new();
    for i in 0..7 {
        info(&mut log, 0, format!("{i}"));
    }
    let first = tail(&log, None, 3);
    let mut seen: Vec<String> = first.iter().map(|e| e.message.clone()).collect();
    let mut last = first.last().unwrap().seq;
    for i in 7..12 {
        warn(&mut log, 0, format!("{i}"));
    }
    loop {
        let next = tail(&log, Some(last), 2);
        if next.is_empty() {
            break;
        }
        seen.extend(next.iter().map(|e| e.message.clone()));
        last = next.last().unwrap().seq;
    }
    assert_eq!(seen, vec!["4", "5", "6", "7", "8", "9", "10", "11"]);
}
