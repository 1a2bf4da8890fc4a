use axolotl_core::backup::{
    delete_summary_from, eligibility_from_record, eligibility_from_root, entry_kind_from_name,
    instance_config_from, list_directory_entries, repository_status_from, require_eligible,
    snapshot_from_row, BackupDirectoryEntry, EntryKind, InstanceBackupEligibility,
    InstanceRecord, RepositoryProbe, RootState, SnapshotRow,
};
use axolotl_core::digest::{hex_lower_string, is_object_hash_name, ObjectHasher};
use axolotl_core::error::ErrorKind;
use axolotl_core::paths::join_relative;
use axolotl_core::repository::{
    check_destination_empty, check_disable_allowed, check_edit_allowed, check_integrity,
    check_object_digest, check_object_size, check_selections_updated, check_snapshot_deleted,
    check_source_unchanged, default_repository_path, edit_makes_ineligible, object_path,
    repository_path_from, stored_object_outcome, stored_repository_setting, swept_object_name,
};
use axolotl_core::servers::{canonical_path, should_seed_servers};
use axolotl_core::snapshot::{
    backup_cancellation_outcome, check_backup_canceled, check_instance_closed,
    check_regular_file, restore_step, restored_entry_kind, check_directory_unchanged, check_selection_kind, child_relative_path, final_progress,
    scan_decision, snapshot_totals, sort_entries_by_path, sort_names, BackupProgressStage,
    PendingEntry, ScanDecision, ScanRecord, SelectionKind,
};

const ABC_DIGEST: &str = "ba7816bf8f01cfea414140de5dae2223b00361a396177a9cb410ff61f20015ad";
const EMPTY_DIGEST: &str = "e3b0c44298fc1c149afbf4c8996fb92427ae41e4649b934ca495991b7852b855";

fn message(result: Result<(), ErrorKind>) -> String {
    match result {
        Err(ErrorKind::InputError(m)) | Err(ErrorKind::FSError(m)) | Err(ErrorKind::OtherError(m)) => m,
        Ok(()) => panic!("expected an error"),
    }
}

fn entry(name: &str, exists: bool) -> BackupDirectoryEntry {
    BackupDirectoryEntry {
        path: name.to_string(),
        name: name.to_string(),
        exists,
        is_symlink: false,
        link_target: None,
    }
}

fn pending(path: &str, kind: EntryKind, size: u64) -> PendingEntry {
    PendingEntry {
        path: path.to_string(),
        kind,
        object_hash: None,
        size,
        modified_at: None,
        unix_mode: None,
        link_target: None,
        link_is_directory: None,
    }
}

#[test]
fn entry_kinds_read_back_from_their_names() {
    for kind in [EntryKind::File, EntryKind::Directory, EntryKind::Symlink] {
        assert_eq!(entry_kind_from_name(kind.as_str()), Some(kind));
    }
    assert_eq!(EntryKind::Symlink.as_str(), "symlink");
    assert_eq!(entry_kind_from_name("folder"), None);
}

#[test]
fn eligibility_follows_the_first_reason_in_order() {
    assert_eq!(
        eligibility_from_record(false, true, true, &Some("x".to_string())),
        Some(InstanceBackupEligibility::NotInstalled)
    );
    assert_eq!(
        eligibility_from_record(true, true, true, &None),
        Some(InstanceBackupEligibility::SymlinkInstance)
    );
    assert_eq!(
        eligibility_from_record(true, false, true, &None),
        Some(InstanceBackupEligibility::DirectLinkedInstance)
    );
    assert_eq!(
        eligibility_from_record(true, false, false, &Some("/games/x".to_string())),
        Some(InstanceBackupEligibility::ExternalGameDirectory)
    );
    assert_eq!(eligibility_from_record(true, false, false, &Some("  ".to_string())), None);
    assert_eq!(eligibility_from_root(RootState::Missing), InstanceBackupEligibility::RootMissing);
    assert_eq!(eligibility_from_root(RootState::Link), InstanceBackupEligibility::RootIsLink);
    assert_eq!(eligibility_from_root(RootState::Present), InstanceBackupEligibility::Eligible);
}

#[test]
fn ineligible_instances_are_refused_with_their_reason() {
    assert!(require_eligible(InstanceBackupEligibility::Eligible).is_ok());
    assert_eq!(
        message(require_eligible(InstanceBackupEligibility::RootIsLink)),
        "Instance is not eligible for backups: RootIsLink"
    );
}

#[test]
fn repository_status_reports_each_probe() {
    let failed = repository_status_from(
        "/repo".to_string(),
        RepositoryProbe::OpenFailed { initialized: true, message: "locked".to_string() },
    );
    assert!(failed.initialized && !failed.available);
    assert_eq!(failed.error.as_deref(), Some("locked"));
    let missing = repository_status_from("/repo".to_string(), RepositoryProbe::Missing);
    assert!(!missing.initialized && missing.available && missing.error.is_none());
    let opened = repository_status_from(
        "/repo".to_string(),
        RepositoryProbe::Opened { snapshot_count: 3, logical_size: -5, stored_size: 40 },
    );
    assert_eq!((opened.snapshot_count, opened.logical_size, opened.stored_size), (3, 0, 40));
    assert_eq!(opened.path, "/repo");
}

#[test]
fn instance_config_hides_selections_of_disabled_backups() {
    let none = instance_config_from("i".to_string(), InstanceBackupEligibility::Eligible, None);
    assert!(!none.enabled && none.selected_directories.is_empty() && none.snapshot_count == 0);
    let disabled = instance_config_from(
        "i".to_string(),
        InstanceBackupEligibility::Eligible,
        Some(InstanceRecord {
            enabled: false,
            selected_directories: vec!["saves".to_string()],
            snapshot_count: 2,
        }),
    );
    assert!(disabled.selected_directories.is_empty());
    assert_eq!(disabled.snapshot_count, 2);
    let enabled = instance_config_from(
        "i".to_string(),
        InstanceBackupEligibility::RootMissing,
        Some(InstanceRecord {
            enabled: true,
            selected_directories: vec!["saves".to_string()],
            snapshot_count: -1,
        }),
    );
    assert_eq!(enabled.selected_directories, ["saves"]);
    assert_eq!(enabled.snapshot_count, 0);
    assert_eq!(enabled.eligibility, InstanceBackupEligibility::RootMissing);
}

#[test]
fn stored_rows_read_negative_counts_as_zero() {
    let s = snapshot_from_row(SnapshotRow {
        id: "s".to_string(),
        instance_id: "i".to_string(),
        instance_name: "n".to_string(),
        created_at: -7,
        file_count: 4,
        symlink_count: -1,
        logical_size: 10,
        added_size: -3,
    });
    assert_eq!((s.created_at, s.file_count, s.symlink_count, s.logical_size, s.added_size), (-7, 4, 0, 10, 0));
    let d = delete_summary_from(-2, 9);
    assert_eq!((d.snapshot_count, d.logical_size), (0, 9));
}

#[test]
fn listing_is_ordered_and_offers_config_and_saves() {
    let listed = list_directory_entries(vec![entry("mods", true), entry("config", true)]);
    let names: Vec<&str> = listed.iter().map(|e| e.name.as_str()).collect();
    assert_eq!(names, ["config", "mods", "saves"]);
    assert!(listed[0].exists);
    assert!(!listed[2].exists);
    let empty = list_directory_entries(Vec::new());
    let names: Vec<&str> = empty.iter().map(|e| e.name.as_str()).collect();
    assert_eq!(names, ["config", "saves"]);
}

#[test]
fn listing_keeps_the_last_entry_of_a_name() {
    let mut second = entry("mods", true);
    second.is_symlink = true;
    let listed = list_directory_entries(vec![entry("mods", true), second]);
    assert_eq!(listed.len(), 3);
    assert!(listed[1].is_symlink);
}

#[test]
fn object_hasher_names_content_by_its_sha256() {
    let mut hasher = ObjectHasher::new();
    hasher.feed(b"a");
    hasher.feed(b"bc");
    let (name, size) = hasher.finish();
    assert_eq!(name, ABC_DIGEST);
    assert_eq!(size, 3);
    let (empty, size) = ObjectHasher::new().finish();
    assert_eq!(empty, EMPTY_DIGEST);
    assert_eq!(size, 0);
    assert!(is_object_hash_name(&name));
    assert_eq!(hex_lower_string(&[0x00, 0xAB, 0x7F]), "00ab7f");
}

#[test]
fn object_digests_are_checked() {
    let mut hasher = ObjectHasher::new();
    hasher.feed(b"abc");
    assert!(check_object_digest(ABC_DIGEST, hasher).is_ok());
    let mut hasher = ObjectHasher::new();
    hasher.feed(b"abd");
    assert_eq!(
        message(check_object_digest(ABC_DIGEST, hasher)),
        format!("Backup object {ABC_DIGEST} failed SHA-256 verification")
    );
    assert!(check_object_size("h", 4, 4).is_ok());
    assert_eq!(message(check_object_size("h", 4, 5)), "Backup object h has an unexpected size");
}

#[test]
fn objects_are_stored_under_their_first_two_digits() {
    assert_eq!(
        object_path("/repo", ABC_DIGEST),
        format!("/repo/objects/ba/{}", &ABC_DIGEST[2..])
    );
    assert_eq!(swept_object_name("ba", &ABC_DIGEST[2..]).as_deref(), Some(ABC_DIGEST));
    assert_eq!(swept_object_name("zz", &ABC_DIGEST[2..]), None);
    assert_eq!(swept_object_name("ba", "7816"), None);
}

#[test]
fn object_names_are_64_hexadecimal_digits() {
    assert!(is_object_hash_name(EMPTY_DIGEST));
    assert!(is_object_hash_name(&EMPTY_DIGEST.to_uppercase()));
    assert!(!is_object_hash_name(&EMPTY_DIGEST[1..]));
    assert!(!is_object_hash_name(&format!("g{}", &EMPTY_DIGEST[1..])));
}

#[test]
fn stored_objects_are_new_reused_or_refused() {
    assert_eq!(stored_object_outcome("h".to_string(), 4, None).unwrap(), ("h".to_string(), 4, true));
    assert_eq!(stored_object_outcome("h".to_string(), 4, Some(4)).unwrap(), ("h".to_string(), 4, false));
    match stored_object_outcome("h".to_string(), 4, Some(5)) {
        Err(ErrorKind::FSError(m)) => assert_eq!(m, "Backup object size mismatch for h"),
        other => panic!("unexpected {other:?}"),
    }
}

#[test]
fn repository_paths() {
    assert_eq!(default_repository_path("/cfg"), "/cfg/Backups/instances");
    assert_eq!(repository_path_from(Some("  ".to_string()), "/d".to_string()), "/d");
    assert_eq!(repository_path_from(Some("/x".to_string()), "/d".to_string()), "/x");
    assert_eq!(repository_path_from(None, "/d".to_string()), "/d");
    assert_eq!(stored_repository_setting("/d/", "/d"), None);
    assert_eq!(stored_repository_setting("/e", "/d").as_deref(), Some("/e"));
    assert_eq!(join_relative("/root", "saves/world"), "/root/saves/world");
    assert_eq!(canonical_path("/opts"), "/opts/servers.dat");
}

#[test]
fn repository_checks_name_their_reason() {
    assert!(check_source_unchanged(false, "a").is_ok());
    assert_eq!(
        message(check_source_unchanged(true, "a")),
        "File changed while it was being backed up: a"
    );
    assert!(check_integrity("ok").is_ok());
    assert_eq!(
        message(check_integrity("bad page")),
        "Moved backup database failed its integrity check: bad page"
    );
    assert!(check_disable_allowed(0).is_ok());
    assert_eq!(message(check_disable_allowed(1)), "Delete every snapshot before disabling backups");
    assert!(check_selections_updated(1).is_ok());
    assert_eq!(message(check_selections_updated(0)), "Backups are not enabled for this instance");
    assert!(check_snapshot_deleted(false, 0).is_ok());
    assert_eq!(message(check_snapshot_deleted(true, 0)), "Unknown backup snapshot");
    assert!(check_destination_empty(false).is_ok());
    assert_eq!(
        message(check_destination_empty(true)),
        "The new backup repository directory must be empty"
    );
}

#[test]
fn external_directories_need_backups_disabled() {
    assert!(edit_makes_ineligible(&Some(Some("/t".to_string())), &None));
    assert!(!edit_makes_ineligible(&Some(None), &Some(Some(" ".to_string()))));
    assert!(edit_makes_ineligible(&None, &Some(Some("/g".to_string()))));
    assert!(check_edit_allowed(true, false).is_ok());
    assert_eq!(
        message(check_edit_allowed(true, true)),
        "Disable backups before changing this instance to use an external directory"
    );
}

#[test]
fn servers_are_seeded_only_when_missing() {
    assert!(should_seed_servers(true, true, false));
    assert!(!should_seed_servers(true, true, true));
    assert!(!should_seed_servers(false, true, false));
}

#[test]
fn snapshot_totals_count_files_links_and_bytes() {
    let entries = vec![
        pending("b", EntryKind::File, 5),
        pending("a", EntryKind::Symlink, 0),
        pending("c", EntryKind::Directory, 0),
        pending("a/x", EntryKind::File, 7),
    ];
    let totals = snapshot_totals(&entries);
    assert_eq!((totals.file_count, totals.symlink_count, totals.logical_size), (2, 1, 12));
    let sorted = sort_entries_by_path(entries.clone());
    let paths: Vec<&str> = sorted.iter().map(|e| e.path.as_str()).collect();
    assert_eq!(paths, ["a", "a/x", "b", "c"]);
    let again = snapshot_totals(&sorted);
    assert_eq!((again.file_count, again.symlink_count, again.logical_size), (2, 1, 12));
}

#[test]
fn sorting_by_path_is_stable() {
    let mut first = pending("same", EntryKind::File, 1);
    first.size = 1;
    let second = pending("same", EntryKind::File, 2);
    let sorted = sort_entries_by_path(vec![first, pending("a", EntryKind::Directory, 0), second]);
    assert_eq!(sorted[1].size, 1);
    assert_eq!(sorted[2].size, 2);
}

#[test]
fn directories_that_changed_during_a_scan_are_refused() {
    let expected = vec!["a".to_string(), "b".to_string()];
    assert!(check_directory_unchanged("d", &expected, vec!["b".to_string(), "a".to_string()]).is_ok());
    assert_eq!(
        message(check_directory_unchanged("d", &expected, vec!["a".to_string()])),
        "Directory changed while it was being backed up: d"
    );
    assert_eq!(sort_names(vec!["b".to_string(), "B".to_string(), "a".to_string()]), ["B", "a", "b"]);
}

#[test]
fn selections_must_be_directories() {
    assert!(check_selection_kind("s", SelectionKind::Missing).is_ok());
    assert!(check_selection_kind("s", SelectionKind::LinkToDirectory).is_ok());
    assert!(check_selection_kind("s", SelectionKind::DanglingLink).is_ok());
    assert_eq!(
        message(check_selection_kind("s", SelectionKind::NotDirectory)),
        "Backup selection is not a directory: s"
    );
    assert_eq!(
        message(check_selection_kind("s", SelectionKind::LinkToNonDirectory)),
        "Backup selection is not a directory link: s"
    );
}

#[test]
fn scans_are_retried_once() {
    assert_eq!(scan_decision(false, false, false), ScanDecision::Retry);
    assert_eq!(scan_decision(false, false, true), ScanDecision::Fail);
    assert_eq!(scan_decision(false, true, false), ScanDecision::Fail);
    assert_eq!(scan_decision(true, true, false), ScanDecision::Cancel);
    assert_eq!(scan_decision(true, false, true), ScanDecision::Persist);
}

#[test]
fn final_progress_reports_the_outcome() {
    assert_eq!(
        final_progress(Ok("id".to_string()), true),
        (BackupProgressStage::Completed, Some("id".to_string()), None)
    );
    assert_eq!(
        final_progress(Err("e".to_string()), true),
        (BackupProgressStage::Cancelled, None, Some("e".to_string()))
    );
    assert_eq!(
        final_progress(Err("e".to_string()), false),
        (BackupProgressStage::Failed, None, Some("e".to_string()))
    );
}

#[test]
fn a_scan_counts_each_created_object_once_and_sorts_entries() {
    let mut record = ScanRecord::new();
    record.record_root("saves".to_string(), true);
    record.record_file("saves/b".to_string(), None, None, "h1".to_string(), 4, true);
    record.record_file("saves/a".to_string(), None, None, "h1".to_string(), 4, true);
    record.record_file("saves/c".to_string(), None, None, "h2".to_string(), 9, false);
    record.record_directory("saves/d".to_string(), Some(3), None);
    record.record_symlink("saves/0".to_string(), None, None, "t".to_string(), false);
    assert_eq!(record.created_objects, ["h1"]);
    assert_eq!(record.added_size, 8);
    let (roots, entries, added) = record.finish();
    assert_eq!(roots.len(), 1);
    assert!(roots[0].existed);
    let paths: Vec<&str> = entries.iter().map(|e| e.path.as_str()).collect();
    assert_eq!(paths, ["saves/0", "saves/a", "saves/b", "saves/c", "saves/d"]);
    assert_eq!(added, 8);
    assert_eq!(child_relative_path("saves", "x"), "saves/x");
}

#[test]
fn added_size_saturates() {
    let mut record = ScanRecord::new();
    record.record_file("a".to_string(), None, None, "h1".to_string(), u64::MAX, true);
    record.record_file("b".to_string(), None, None, "h2".to_string(), 1, true);
    assert_eq!(record.added_size, u64::MAX);
}

#[test]
fn backups_stop_once_canceled() {
    let token = tokio_util::sync::CancellationToken::new();
    assert!(check_backup_canceled(&token).is_ok());
    token.cancel();
    assert_eq!(message(check_backup_canceled(&token)), "Backup was canceled");
    assert!(backup_cancellation_outcome(false).is_ok());
}

#[test]
fn running_instances_are_neither_backed_up_nor_restored() {
    assert!(check_instance_closed(false, true).is_ok());
    assert_eq!(
        message(check_instance_closed(true, false)),
        "Close the instance before creating a backup"
    );
    assert_eq!(
        message(check_instance_closed(true, true)),
        "Close the instance before restoring a backup"
    );
}

#[test]
fn only_regular_files_are_stored() {
    assert!(check_regular_file(true, "/i/a").is_ok());
    assert_eq!(message(check_regular_file(false, "/i/fifo")), "Unsupported backup entry: /i/fifo");
}

#[test]
fn restored_entries_need_a_known_kind() {
    assert_eq!(restored_entry_kind("file").unwrap(), EntryKind::File);
    assert_eq!(restored_entry_kind("symlink").unwrap(), EntryKind::Symlink);
    match restored_entry_kind("socket") {
        Err(ErrorKind::FSError(m)) => assert_eq!(m, "Unsupported backup entry kind: socket"),
        other => panic!("unexpected {other:?}"),
    }
}

#[test]
fn restoring_sets_aside_what_is_there_and_installs_what_existed() {
    let step = restore_step(true, false, true);
    assert!(step.set_aside_current && !step.install_staged);
    let step = restore_step(false, true, true);
    assert!(!step.set_aside_current && step.install_staged);
    let step = restore_step(true, true, false);
    assert!(step.set_aside_current && !step.install_staged);
}

#[test]
fn undoing_a_restore_reverses_what_it_did() {
    let mut journal = axolotl_core::snapshot::RestoreJournal::new();
    journal.record_set_aside("/r/saves".to_string(), "/i/saves".to_string());
    journal.record_installed("/i/saves".to_string());
    journal.record_set_aside("/r/config".to_string(), "/i/config".to_string());
    journal.record_installed("/i/config".to_string());
    let undo = journal.undo();
    assert_eq!(undo.remove, ["/i/config", "/i/saves"]);
    assert_eq!(
        undo.move_back,
        [
            ("/r/config".to_string(), "/i/config".to_string()),
            ("/r/saves".to_string(), "/i/saves".to_string())
        ]
    );
}
