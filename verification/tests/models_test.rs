use timeblock_calendar::models::{
    Category, Project, ProjectStatus, SyncStatus, TimeBlock, TimeBlockStatus,
};
use timeblock_calendar::time::day_of;
use timeblock_calendar::validation::ValidationError;

fn now_ts() -> i64 {
    chrono::Utc::now().timestamp()
}

#[test]
fn time_block_new_errors_when_start_not_before_end() {
    let now = now_ts();

    let result = TimeBlock::new("focus".to_string(), None, now, now, None, None, 10);

    assert!(result.is_err());
}

#[test]
fn time_block_new_errors_when_title_is_empty() {
    let now = now_ts();

    let result = TimeBlock::new(
        "   ".to_string(),
        None,
        now,
        now + 3600,
        None,
        None,
        10,
    );

    assert!(result.is_err());
}

#[test]
fn time_block_new_errors_when_progress_out_of_range() {
    let now = now_ts();

    let result = TimeBlock::new(
        "focus".to_string(),
        None,
        now,
        now + 3600,
        None,
        None,
        101,
    );

    assert!(result.is_err());
}

#[test]
fn project_new_errors_when_start_after_end() {
    let start = day_of(now_ts());
    let end = start - 1;

    let result = Project::new("app".to_string(), start, Some(end), None, None);

    assert!(result.is_err());
}

#[test]
fn category_new_success() {
    let result = Category::new("work".to_string(), None);

    assert!(result.is_ok());
    let category = result.expect("category should be created");
    assert_eq!(category.name, "work");
    assert_eq!(category.color, "#3B82F6");
}

#[test]
fn time_block_new_reports_errors_in_order() {
    let now = now_ts();

    assert_eq!(
        TimeBlock::new(" ".to_string(), None, now, now, None, None, 500),
        Err(ValidationError::Empty { field: "title" })
    );
    assert_eq!(
        TimeBlock::new("t".to_string(), None, now, now - 1, None, None, 500),
        Err(ValidationError::InvalidTimeRange)
    );
    assert_eq!(
        TimeBlock::new("t".to_string(), None, now, now + 1, None, None, -1),
        Err(ValidationError::ProgressOutOfRange)
    );
}

#[test]
fn time_block_new_sets_fields() {
    let block = TimeBlock::new(
        "write".to_string(),
        Some("notes".to_string()),
        1_000,
        4_600,
        Some("cat".to_string()),
        Some("proj".to_string()),
        100,
    )
    .expect("valid block");

    assert_eq!(block.title, "write");
    assert_eq!(block.description.as_deref(), Some("notes"));
    assert_eq!((block.start_time, block.end_time), (1_000, 4_600));
    assert_eq!(block.category_id.as_deref(), Some("cat"));
    assert_eq!(block.project_id.as_deref(), Some("proj"));
    assert_eq!(block.progress, 100);
    assert_eq!(block.id.len(), 36);
    assert_eq!(block.status, TimeBlockStatus::Confirmed);
    assert_eq!(block.sync_status, SyncStatus::Local);
    assert_eq!(block.created_at, block.updated_at);
    assert_eq!(block.created_at, block.local_updated_at);
    assert!(block.google_event_id.is_none() && block.etag.is_none() && !block.is_all_day);
}

#[test]
fn project_new_defaults() {
    let project = Project::new("app".to_string(), 20_000, Some(20_000), None, None)
        .expect("a one-day project is valid");

    assert_eq!(project.color, "#10B981");
    assert_eq!(project.status, ProjectStatus::Active);
    assert_eq!(project.created_at, project.updated_at);
    assert_eq!(project.end_date, Some(20_000));
    assert_eq!(
        Project::new("\n".to_string(), 1, None, None, None),
        Err(ValidationError::Empty { field: "name" })
    );
    assert_eq!(
        Project::new("x".to_string(), 5, Some(4), None, None),
        Err(ValidationError::InvalidDateRange)
    );
}

#[test]
fn category_new_keeps_color_and_rejects_blank_name() {
    let category = Category::new("home".to_string(), Some("#000000".to_string())).expect("valid");
    assert_eq!(category.color, "#000000");
    assert_ne!(category.id, Category::new("home".to_string(), None).expect("valid").id);
    assert_eq!(
        Category::new("\u{3000}".to_string(), None),
        Err(ValidationError::Empty { field: "name" })
    );
}

#[test]
fn status_codes_round_trip() {
    for s in [ProjectStatus::Active, ProjectStatus::Completed, ProjectStatus::Archived] {
        assert_eq!(ProjectStatus::from_db_str(s.as_db_str()), s);
    }
    for s in [
        TimeBlockStatus::Confirmed,
        TimeBlockStatus::Tentative,
        TimeBlockStatus::Cancelled,
    ] {
        assert_eq!(TimeBlockStatus::from_db_str(s.as_db_str()), s);
    }
    for s in [
        SyncStatus::Local,
        SyncStatus::Synced,
        SyncStatus::PendingPush,
        SyncStatus::PendingDelete,
        SyncStatus::Conflict,
    ] {
        assert_eq!(SyncStatus::from_db_str(s.as_db_str()), s);
    }
}

#[test]
fn status_codes_text_and_unknown_defaults() {
    assert_eq!(ProjectStatus::Completed.as_db_str(), "completed");
    assert_eq!(TimeBlockStatus::Tentative.as_db_str(), "tentative");
    assert_eq!(SyncStatus::PendingDelete.as_db_str(), "pending_delete");
    assert_eq!(ProjectStatus::from_db_str("gone"), ProjectStatus::Active);
    assert_eq!(TimeBlockStatus::from_db_str(""), TimeBlockStatus::Confirmed);
    assert_eq!(SyncStatus::from_db_str("SYNCED"), SyncStatus::Local);
}

#[test]
fn validation_messages() {
    assert_eq!(
        ValidationError::Empty { field: "title" }.message(),
        "title must not be empty"
    );
    assert_eq!(
        ValidationError::CircularDependency.message(),
        "circular dependency detected"
    );
    assert_eq!(
        ValidationError::InvalidDateRange.message(),
        "date range is invalid: end must be on or after start"
    );
}

#[test]
fn new_records_get_version_4_uuids() {
    let now = now_ts();
    let block = TimeBlock::new("t".to_string(), None, now, now + 60, None, None, 0).expect("valid");
    let category = Category::new("c".to_string(), None).expect("valid");
    let project = Project::new("p".to_string(), day_of(now), None, None, None).expect("valid");

    for id in [&block.id, &category.id, &project.id] {
        let chars: Vec<char> = id.chars().collect();
        assert_eq!(chars.len(), 36);
        assert_eq!(chars[14], '4');
        assert!(['8', '9', 'a', 'b'].contains(&chars[19]));
        for (i, c) in chars.iter().enumerate() {
            if [8, 13, 18, 23].contains(&i) {
                assert_eq!(*c, '-');
            } else {
                assert!(c.is_ascii_digit() || ('a'..='f').contains(c));
            }
        }
    }
}
