use two_khz::logbuffer::{LogBuffer, MAX_LOG_LINES};

#[test]
fn a_cursor_sees_only_what_came_after() {
    let mut log = LogBuffer::new();
    log.push("one".into());
    let cursor = log.cursor();
    log.push("two".into());
    let slice = log.since(cursor);
    assert_eq!(slice.lines, ["two"]);
    assert_eq!(slice.cursor, log.cursor());
    assert!(log.since(log.cursor()).lines.is_empty());
}

#[test]
fn a_log_keeps_its_tail() {
    let mut log = LogBuffer::default();
    for i in 0..MAX_LOG_LINES + 5 {
        log.push(format!("{i}"));
    }
    let all = log.all();
    assert_eq!(all.len(), MAX_LOG_LINES);
    assert_eq!(all[0], "5");
    // A cursor that has fallen off the front gets what is left.
    assert_eq!(log.since(0).lines.len(), MAX_LOG_LINES);
    assert_eq!(log.since(MAX_LOG_LINES as u64 + 4).lines, [format!("{}", MAX_LOG_LINES + 4)]);
}

#[test]
fn a_clear_leaves_nothing_to_read() {
    let mut log = LogBuffer::new();
    log.push("one".into());
    let cursor = log.cursor();
    log.clear();
    assert!(log.all().is_empty());
    assert!(log.since(cursor).lines.is_empty());
    log.push("two".into());
    assert_eq!(log.since(cursor).lines, ["two"]);
}
