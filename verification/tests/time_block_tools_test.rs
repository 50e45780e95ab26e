use timeblock_calendar::models::{SyncStatus, TimeBlock};
use timeblock_calendar::repository::{apply_time_block_patch, TimeBlockPatch};
use timeblock_calendar::validation::ValidationError;

fn now_ts() -> i64 {
    chrono::Utc::now().timestamp()
}

fn block(title: &str, start: i64, end: i64) -> TimeBlock {
    TimeBlock::new(title.to_string(), None, start, end, None, None, 0).expect("create should succeed")
}

#[test]
fn create_time_block_returns_created_id() {
    let now = now_ts();

    let block = block("design", now, now + 3600);

    assert!(!block.id.is_empty());
}

#[test]
fn create_time_block_returns_error_when_start_not_before_end() {
    let now = now_ts();

    let result = TimeBlock::new("design".to_string(), None, now, now, None, None, 0);

    assert!(result.is_err());
}

#[test]
fn create_time_block_returns_error_when_title_empty() {
    let now = now_ts();

    let result = TimeBlock::new("   ".to_string(), None, now, now + 3600, None, None, 0);

    assert!(result.is_err());
}

#[test]
fn update_time_block_supports_partial_update() {
    let base = now_ts();
    let created = block("old", base, base + 3600);

    let updated = apply_time_block_patch(
        created.clone(),
        &TimeBlockPatch {
            title: Some("new".to_string()),
            ..TimeBlockPatch::default()
        },
        base + 10,
    )
    .expect("update should succeed");

    assert_eq!(updated.title, "new");
    assert_eq!(updated.start_time, created.start_time);
}

#[test]
fn patch_marks_block_pending_push_and_stamps_it() {
    let created = block("old", 100, 200);
    let patch = TimeBlockPatch {
        description: Some(Some("d".to_string())),
        end_time: Some(300),
        progress: Some(50),
        project_id: Some(Some("p".to_string())),
        category_id: Some(None),
        ..TimeBlockPatch::default()
    };

    let updated = apply_time_block_patch(created.clone(), &patch, 999).expect("valid");

    assert_eq!(updated.title, "old");
    assert_eq!(updated.description.as_deref(), Some("d"));
    assert_eq!((updated.start_time, updated.end_time), (100, 300));
    assert_eq!(updated.progress, 50);
    assert_eq!(updated.project_id.as_deref(), Some("p"));
    assert_eq!(updated.category_id, None);
    assert_eq!(updated.sync_status, SyncStatus::PendingPush);
    assert_eq!((updated.updated_at, updated.local_updated_at), (999, 999));
    assert_eq!(updated.created_at, created.created_at);
    assert_eq!(updated.id, created.id);
}

#[test]
fn patch_rejects_bad_progress_before_bad_range() {
    let created = block("old", 100, 200);

    let both = TimeBlockPatch {
        start_time: Some(500),
        progress: Some(101),
        ..TimeBlockPatch::default()
    };
    assert_eq!(
        apply_time_block_patch(created.clone(), &both, 1),
        Err(ValidationError::ProgressOutOfRange)
    );

    let range = TimeBlockPatch {
        start_time: Some(200),
        ..TimeBlockPatch::default()
    };
    assert_eq!(
        apply_time_block_patch(created, &range, 1),
        Err(ValidationError::InvalidTimeRange)
    );
}

#[test]
fn empty_patch_only_restamps() {
    let created = block("same", 10, 20);

    let updated = apply_time_block_patch(created.clone(), &TimeBlockPatch::default(), 77)
        .expect("valid");

    assert_eq!(updated.title, created.title);
    assert_eq!(updated.progress, created.progress);
    assert_eq!(updated.updated_at, 77);
}
