use aether::store::{
    backup_file_name, moves_current_to_backup, quarantine_file_name, store_read_step,
    store_text, temp_write_file_name, StoreCopy, StoreReadStep,
};

#[test]
fn store_siblings_are_named_after_the_store() {
    assert_eq!(backup_file_name("library.json"), "library.json.bak");
    assert_eq!(temp_write_file_name("library.json"), "library.json.tmp");
    assert_eq!(
        quarantine_file_name("library.json", "2026-07-01T10:11:12.123Z"),
        "library.json.corrupt-2026-07-01T10-11-12.123Z"
    );
}

#[test]
fn saved_stores_end_with_a_newline() {
    assert_eq!(store_text("{}"), "{}\n");
}

#[test]
fn only_rotating_saves_move_an_existing_file_to_the_backup() {
    assert!(moves_current_to_backup(true, true));
    assert!(!moves_current_to_backup(true, false));
    assert!(!moves_current_to_backup(false, true));
}

#[test]
fn reads_trust_the_primary_then_the_backup_then_a_default() {
    assert_eq!(store_read_step(StoreCopy::Primary, true), StoreReadStep::UsePrimary);
    assert_eq!(store_read_step(StoreCopy::Primary, false), StoreReadStep::ReadBackup);
    assert_eq!(store_read_step(StoreCopy::Backup, true), StoreReadStep::RestoreFromBackup);
    assert_eq!(store_read_step(StoreCopy::Backup, false), StoreReadStep::ResetToDefault);
}
