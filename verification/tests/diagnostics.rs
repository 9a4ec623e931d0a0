use aether::diagnostics::{
    format_entry, needs_rollover, truncate_to_newest_half, DiagnosticBuffer, DiagnosticEntry,
    DiagnosticLevel, MAX_ENTRIES,
};

fn entry(message: &str) -> DiagnosticEntry {
    DiagnosticEntry {
        at: "2026-01-01T00:00:00.000Z".to_string(),
        level: DiagnosticLevel::Warn,
        message: message.to_string(),
    }
}

#[test]
fn entries_are_formatted_as_log_lines() {
    assert_eq!(format_entry(&entry("disk full")), "2026-01-01T00:00:00.000Z [warn] disk full\n");
    assert_eq!(DiagnosticLevel::Error.as_str(), "error");
    assert!(needs_rollover(524_289));
    assert!(!needs_rollover(524_288));
}

#[test]
fn rollover_keeps_the_newest_half() {
    assert_eq!(truncate_to_newest_half("a\nb\nc\nd\n"), "c\nd\n");
    assert_eq!(truncate_to_newest_half("a\nb\nc"), "b\nc\n");
    assert_eq!(truncate_to_newest_half(""), "\n");
}

#[test]
fn the_buffer_is_bounded_and_newest_first() {
    let mut buffer = DiagnosticBuffer::new();
    for i in 0..(MAX_ENTRIES + 5) {
        buffer.record(entry(&format!("m{i}")));
    }
    assert_eq!(buffer.entries.len(), MAX_ENTRIES);
    let recent = buffer.recent();
    assert_eq!(recent[0].message, format!("m{}", MAX_ENTRIES + 4));
    assert_eq!(recent[MAX_ENTRIES - 1].message, "m5");
}
