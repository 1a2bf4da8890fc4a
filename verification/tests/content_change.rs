use axolotl_core::content_change::DownloadQueueEvent;
use axolotl_core::content_change::{
    apply_download_results, check_no_failures, download_route, preparation_route, publish_step,
    record_publish_success, resume_actions, total_download_bytes, unique_pending_files,
    fill_final_relative_paths, ContentChangeAction, ContentChangeActionStatus,
    ContentChangeFile, ContentChangeFileIntegrity, ContentChangeFileRole,
    ContentChangeOperation, ContentProvider, ContentTarget, DownloadReason, DownloadRoute,
    PreparationRoute, PublishStep, CONTENT_CHANGE_PLAN_VERSION,
};
use axolotl_core::error::ErrorKind;

fn file(id: &str) -> ContentChangeFile {
    ContentChangeFile {
        id: id.to_string(),
        role: ContentChangeFileRole::Dependency,
        provider: ContentProvider::Modrinth,
        project_id: id.to_string(),
        release_id: id.to_string(),
        file_name: format!("{id}.jar"),
        target_relative_path: format!("cache/{id}.jar"),
        urls: Vec::new(),
        manual_download_url: None,
        integrity: ContentChangeFileIntegrity::default(),
    }
}

fn action(
    id: &str,
    status: ContentChangeActionStatus,
    files: Vec<ContentChangeFile>,
) -> ContentChangeAction {
    ContentChangeAction {
        content_id: id.to_string(),
        operation: ContentChangeOperation::Update,
        provider: ContentProvider::Modrinth,
        project_id: Some(id.to_string()),
        expected_release_id: Some("old".to_string()),
        target_release_id: "new".to_string(),
        relative_path: Some(format!("mods/{id}.jar")),
        current_provider_file_name: None,
        target_provider_file_name: None,
        final_relative_path: Some(format!("mods/{id}.jar")),
        files,
        dependencies: Vec::new(),
        status,
        error: None,
        completed: false,
    }
}

#[test]
fn pending_downloads_are_deduplicated_across_actions() {
    let files = unique_pending_files(&[
        action(
            "first",
            ContentChangeActionStatus::Prepared,
            vec![file("primary-a"), file("shared")],
        ),
        action(
            "second",
            ContentChangeActionStatus::Prepared,
            vec![file("primary-b"), file("shared")],
        ),
    ]);

    assert_eq!(
        files.iter().map(|file| file.id.as_str()).collect::<Vec<_>>(),
        vec!["primary-a", "primary-b", "shared"]
    );
}

#[test]
fn completed_and_failed_actions_do_not_schedule_downloads() {
    let files = unique_pending_files(&[
        action(
            "completed",
            ContentChangeActionStatus::Completed,
            vec![file("completed")],
        ),
        action("failed", ContentChangeActionStatus::Failed, vec![file("failed")]),
        action(
            "pending",
            ContentChangeActionStatus::Prepared,
            vec![file("pending")],
        ),
    ]);

    assert_eq!(files.len(), 1);
    assert_eq!(files[0].id, "pending");
}

#[test]
fn the_first_file_with_an_id_is_kept() {
    let mut early = file("shared");
    early.file_name = "early.jar".to_string();
    let mut late = file("shared");
    late.file_name = "late.jar".to_string();
    let files = unique_pending_files(&[
        action("a", ContentChangeActionStatus::Pending, vec![early]),
        action("b", ContentChangeActionStatus::Pending, vec![late]),
    ]);
    assert_eq!(files.len(), 1);
    assert_eq!(files[0].file_name, "early.jar");
}

#[test]
fn resuming_an_old_plan_recomputes_operations_and_retries_failures() {
    let mut actions = vec![
        action("switched", ContentChangeActionStatus::Failed, Vec::new()),
        action("other", ContentChangeActionStatus::Downloaded, Vec::new()),
    ];
    actions[1].completed = true;
    resume_actions(&mut actions, CONTENT_CHANGE_PLAN_VERSION - 1, Some("switched"));
    assert_eq!(actions[0].operation, ContentChangeOperation::SwitchVersion);
    assert_eq!(actions[0].status, ContentChangeActionStatus::Pending);
    assert!(!actions[0].completed);
    assert_eq!(actions[1].operation, ContentChangeOperation::Update);
    assert_eq!(actions[1].status, ContentChangeActionStatus::Completed);
}

#[test]
fn resuming_a_current_plan_keeps_operations() {
    let mut actions = vec![action("x", ContentChangeActionStatus::Prepared, Vec::new())];
    actions[0].operation = ContentChangeOperation::SwitchVersion;
    resume_actions(&mut actions, CONTENT_CHANGE_PLAN_VERSION, None);
    assert_eq!(actions[0].operation, ContentChangeOperation::SwitchVersion);
    assert_eq!(actions[0].status, ContentChangeActionStatus::Prepared);
}

#[test]
fn missing_final_paths_default_to_the_relative_path() {
    let mut actions = vec![action("x", ContentChangeActionStatus::Pending, Vec::new())];
    actions[0].final_relative_path = None;
    fill_final_relative_paths(&mut actions);
    assert_eq!(actions[0].final_relative_path.as_deref(), Some("mods/x.jar"));
}

#[test]
fn failed_downloads_fail_their_actions() {
    let mut actions = vec![
        action("a", ContentChangeActionStatus::Prepared, vec![file("one")]),
        action("b", ContentChangeActionStatus::Prepared, vec![file("two")]),
        action("c", ContentChangeActionStatus::Completed, vec![file("one")]),
    ];
    apply_download_results(&mut actions, &vec!["one".to_string()]);
    assert_eq!(actions[0].status, ContentChangeActionStatus::Failed);
    assert_eq!(
        actions[0].error.as_deref(),
        Some("One or more content files could not be downloaded")
    );
    assert_eq!(actions[1].status, ContentChangeActionStatus::Downloaded);
    assert_eq!(actions[2].status, ContentChangeActionStatus::Completed);
}

#[test]
fn total_bytes_need_every_size() {
    let mut a = file("a");
    a.integrity.size = Some(3);
    let mut b = file("b");
    b.integrity.size = Some(4);
    assert_eq!(total_download_bytes(&vec![a.clone(), b]), Some(7));
    assert_eq!(total_download_bytes(&vec![a, file("c")]), None);
    assert_eq!(total_download_bytes(&Vec::new()), Some(0));
}

#[test]
fn download_routes_follow_the_provider() {
    let mut primary = file("p");
    primary.role = ContentChangeFileRole::Primary;
    match download_route(&primary).unwrap() {
        DownloadRoute::Modrinth { release_id, reason } => {
            assert_eq!(release_id, "p");
            assert_eq!(reason, DownloadReason::Update);
        }
        other => panic!("unexpected {other:?}"),
    }
    let mut curse = file("c");
    curse.provider = ContentProvider::CurseForge;
    curse.project_id = "+12".to_string();
    curse.release_id = "4294967295".to_string();
    match download_route(&curse).unwrap() {
        DownloadRoute::CurseForge { project_id, file_id } => {
            assert_eq!(project_id, 12);
            assert_eq!(file_id, 4294967295);
        }
        other => panic!("unexpected {other:?}"),
    }
    curse.release_id = "4294967296".to_string();
    match download_route(&curse) {
        Err(ErrorKind::InputError(m)) => assert_eq!(m, "Invalid CurseForge project or file ID"),
        other => panic!("unexpected {other:?}"),
    }
    let mut manual = file("m");
    manual.manual_download_url = Some("https://example.org".to_string());
    match download_route(&manual) {
        Err(ErrorKind::InputError(m)) => {
            assert_eq!(m, "This content file requires a manual download")
        }
        other => panic!("unexpected {other:?}"),
    }
    let mut local = file("l");
    local.provider = ContentProvider::Local;
    match download_route(&local) {
        Err(ErrorKind::InputError(m)) => {
            assert_eq!(m, "Provider local cannot be downloaded automatically")
        }
        other => panic!("unexpected {other:?}"),
    }
}

#[test]
fn only_modrinth_and_curseforge_content_can_change() {
    assert_eq!(preparation_route(ContentProvider::Modrinth).unwrap(), PreparationRoute::Modrinth);
    assert_eq!(
        preparation_route(ContentProvider::CurseForge).unwrap(),
        PreparationRoute::CurseForge
    );
    match preparation_route(ContentProvider::Local) {
        Err(ErrorKind::InputError(m)) => {
            assert_eq!(m, "Provider local does not support content changes")
        }
        other => panic!("unexpected {other:?}"),
    }
}

#[test]
fn publishing_compares_the_installed_release() {
    let a = action("x", ContentChangeActionStatus::Downloaded, Vec::new());
    let installed_target = ContentTarget {
        provider: Some(ContentProvider::Modrinth),
        provider_release_id: Some("new".to_string()),
    };
    assert_eq!(publish_step(&a, &installed_target).unwrap(), PublishStep::Skip);
    let installed_expected = ContentTarget {
        provider: Some(ContentProvider::Modrinth),
        provider_release_id: Some("old".to_string()),
    };
    assert_eq!(publish_step(&a, &installed_expected).unwrap(), PublishStep::Apply);
    let changed = ContentTarget {
        provider: Some(ContentProvider::CurseForge),
        provider_release_id: Some("old".to_string()),
    };
    match publish_step(&a, &changed) {
        Err(ErrorKind::InputError(m)) => {
            assert_eq!(m, "Content x changed after the task was queued")
        }
        other => panic!("unexpected {other:?}"),
    }
}

#[test]
fn publishing_completes_unless_already_complete() {
    let mut a = action("x", ContentChangeActionStatus::Applying, Vec::new());
    record_publish_success(&mut a);
    assert_eq!(a.status, ContentChangeActionStatus::Completed);
    assert!(a.completed);
    let mut skipped = action("y", ContentChangeActionStatus::Skipped, Vec::new());
    record_publish_success(&mut skipped);
    assert_eq!(skipped.status, ContentChangeActionStatus::Skipped);
}

#[test]
fn failures_are_counted() {
    let actions = vec![
        action("a", ContentChangeActionStatus::Failed, Vec::new()),
        action("b", ContentChangeActionStatus::Completed, Vec::new()),
        action("c", ContentChangeActionStatus::Failed, Vec::new()),
    ];
    match check_no_failures(&actions) {
        Err(ErrorKind::OtherError(m)) => assert_eq!(m, "2 content change(s) failed"),
        other => panic!("unexpected {other:?}"),
    }
    assert!(check_no_failures(&actions[1..2]).is_ok());
}

#[test]
fn resuming_twice_equals_resuming_once() {
    let mut failed = action("a", ContentChangeActionStatus::Failed, vec![file("f")]);
    failed.error = Some("boom".to_string());
    let mut done = action("b", ContentChangeActionStatus::Pending, Vec::new());
    done.completed = true;
    let mut once = vec![failed, done, action("c", ContentChangeActionStatus::Skipped, Vec::new())];
    resume_actions(&mut once, 1, Some("c"));
    let mut twice = once.clone();
    resume_actions(&mut twice, 1, Some("c"));
    for (x, y) in once.iter().zip(twice.iter()) {
        assert_eq!(x.status, y.status);
        assert_eq!(x.completed, y.completed);
        assert_eq!(x.operation, y.operation);
        assert_eq!(x.error, y.error);
    }
    assert_eq!(once[0].status, ContentChangeActionStatus::Pending);
    assert!(!once[0].is_complete());
    assert_eq!(once[1].status, ContentChangeActionStatus::Completed);
    assert!(once[2].is_complete());
    assert_eq!(once[2].operation, ContentChangeOperation::SwitchVersion);
}

#[test]
fn content_changes_stop_once_canceled() {
    let token = tokio_util::sync::CancellationToken::new();
    assert!(axolotl_core::content_change::check_canceled(&token).is_ok());
    token.cancel();
    match axolotl_core::content_change::check_canceled(&token) {
        Err(ErrorKind::InputError(m)) => assert_eq!(m, "Content change canceled"),
        other => panic!("unexpected {other:?}"),
    }
}

#[test]
fn only_actions_still_under_way_are_prepared_and_published() {
    let mut done = action("a", ContentChangeActionStatus::Pending, Vec::new());
    done.completed = true;
    let actions = vec![
        done,
        action("b", ContentChangeActionStatus::Downloaded, Vec::new()),
        action("c", ContentChangeActionStatus::Failed, Vec::new()),
        action("d", ContentChangeActionStatus::Pending, Vec::new()),
        action("e", ContentChangeActionStatus::Skipped, Vec::new()),
    ];
    assert_eq!(axolotl_core::content_change::actions_awaiting_preparation(&actions), [2, 3]);
    let under_way: Vec<bool> =
        actions.iter().map(axolotl_core::content_change::is_under_way).collect();
    assert_eq!(under_way, [false, true, false, true, false]);
}

#[test]
fn queued_downloads_are_announced_with_their_pages() {
    let mut with_pages = file("p");
    with_pages.urls = vec!["https://example.org/p".to_string()];
    with_pages.integrity.size = Some(3);
    let events = axolotl_core::content_change::download_queue_events(&vec![file("q"), with_pages], None);
    assert_eq!(events.len(), 4);
    assert!(matches!(events[0], DownloadQueueEvent::Started { files: 2, bytes: None }));
    match &events[1] {
        DownloadQueueEvent::Queued { path, bytes_total, max_attempts } => {
            assert_eq!(path, "cache/q.jar");
            assert_eq!(*bytes_total, None);
            assert_eq!(*max_attempts, 5);
        }
        other => panic!("unexpected {other:?}"),
    }
    assert!(matches!(&events[2], DownloadQueueEvent::Queued { bytes_total: Some(3), .. }));
    match &events[3] {
        DownloadQueueEvent::BrowserOptions { path, urls } => {
            assert_eq!(path, "cache/p.jar");
            assert_eq!(urls, &["https://example.org/p".to_string()]);
        }
        other => panic!("unexpected {other:?}"),
    }
}
