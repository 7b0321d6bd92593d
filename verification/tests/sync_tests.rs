use chronicle::sync::{parse_conflict_markers, plan_resolution, ConflictResolution, SyncStatus};

#[test]
fn test_parse_conflict_markers() {
    let content = "<<<<<<< HEAD\nlocal content\n=======\nremote content\n>>>>>>> origin/main\n";
    let result = parse_conflict_markers(content);
    assert!(result.is_some());
    let (local, remote, base) = result.unwrap();
    assert_eq!(local.trim(), "local content");
    assert_eq!(remote.trim(), "remote content");
    assert!(base.is_none());
}

#[test]
fn test_parse_conflict_with_base() {
    let content = "<<<<<<< HEAD\nlocal content\n||||||| merged common ancestors\nbase content\n=======\nremote content\n>>>>>>> origin/main\n";
    let result = parse_conflict_markers(content);
    assert!(result.is_some());
    let (local, remote, base) = result.unwrap();
    assert_eq!(local.trim(), "local content");
    assert_eq!(remote.trim(), "remote content");
    assert_eq!(base.unwrap().trim(), "base content");
}

#[test]
fn test_default_status() {
    let status = SyncStatus::default();
    assert!(!status.initialized);
    assert!(!status.needs_sync());
    assert!(!status.has_conflicts());
}

#[test]
fn test_needs_sync_when_dirty() {
    let status = SyncStatus {
        dirty: true,
        ..Default::default()
    };
    assert!(status.needs_sync());
}

#[test]
fn test_needs_sync_when_ahead() {
    let status = SyncStatus {
        ahead: 1,
        ..Default::default()
    };
    assert!(status.needs_sync());
}

#[test]
fn test_has_conflicts() {
    let status = SyncStatus {
        conflicts: vec!["note.md".to_string()],
        ..Default::default()
    };
    assert!(status.has_conflicts());
}

#[test]
fn incomplete_marker_block_is_no_conflict() {
    let content = "<<<<<<< HEAD\nlocal only\n=======\nremote only\n";
    assert!(parse_conflict_markers(content).is_none());
    assert!(parse_conflict_markers("no markers at all").is_none());
}

#[test]
fn keep_local_plan_rewrites_the_file() {
    let plan = plan_resolution("test.md", &ConflictResolution::KeepLocal, "local content", "remote content");
    assert_eq!(plan.writes.len(), 1);
    assert_eq!(plan.writes[0].path, "test.md");
    assert_eq!(plan.writes[0].content, "local content");
    assert!(plan.remove.is_none());
    assert_eq!(plan.created, vec!["test.md".to_string()]);
}

#[test]
fn keep_remote_plan_rewrites_the_file() {
    let plan = plan_resolution("test.md", &ConflictResolution::KeepRemote, "local content", "remote content");
    assert_eq!(plan.writes.len(), 1);
    assert_eq!(plan.writes[0].content, "remote content");
}

#[test]
fn keep_both_plan_splits_the_file() {
    let plan = plan_resolution("sub/test.md", &ConflictResolution::KeepBoth, "L", "R");
    assert_eq!(plan.writes.len(), 2);
    assert_eq!(plan.writes[0].path, "sub/test-local.md");
    assert_eq!(plan.writes[0].content, "L");
    assert_eq!(plan.writes[1].path, "sub/test-remote.md");
    assert_eq!(plan.writes[1].content, "R");
    assert_eq!(plan.remove, Some("sub/test.md".to_string()));
    assert_eq!(plan.created, vec!["sub/test-local.md".to_string(), "sub/test-remote.md".to_string()]);
}

#[test]
fn uninitialized_status_is_clean() {
    let status = SyncStatus::uninitialized();
    assert!(!status.initialized);
    assert_eq!(status.branch, "main");
    assert_eq!(status.ahead, 0);
    assert_eq!(status.behind, 0);
    assert!(status.remote_url.is_none());
    assert!(!status.dirty);
}
