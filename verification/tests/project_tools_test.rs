use timeblock_calendar::models::{Project, ProjectStatus};
use timeblock_calendar::projects::{
    build_gantt_tasks, category_from_record, project_from_record, project_to_record, CategoryRecord,
    GanttRow,
    ProjectRecord,
};
use timeblock_calendar::repository::RowError;
use timeblock_calendar::time::day_of;

fn now_ts() -> i64 {
    chrono::Utc::now().timestamp()
}

fn row(id: &str, title: &str, start: &str, end: &str, progress: i32, dep: Option<&str>) -> GanttRow {
    GanttRow {
        id: id.to_string(),
        title: title.to_string(),
        start: start.to_string(),
        end: end.to_string(),
        progress,
        depends_on: dep.map(|d| d.to_string()),
    }
}

#[test]
fn create_project_success() {
    let date = day_of(now_ts());

    let project = Project::new("app".to_string(), date, None, None, None)
        .expect("project should be created");

    assert_eq!(project.name, "app");
}

#[test]
fn get_gantt_data_returns_tasks_with_dependencies() {
    let rows = vec![
        row("first", "design", "2026-02-17T09:00:00Z", "2026-02-17T10:00:00Z", 100, None),
        row("second", "impl", "2026-02-17T11:00:00Z", "2026-02-17T13:00:00Z", 10, Some("first")),
    ];

    let gantt = build_gantt_tasks(&rows).expect("gantt should be fetched");

    assert_eq!(gantt.len(), 2);
    let impl_task = gantt
        .iter()
        .find(|t| t.id == "second")
        .expect("impl task should exist");
    assert_eq!(impl_task.depends_on, vec!["first".to_string()]);
}

#[test]
fn gantt_groups_rows_and_orders_by_start() {
    let rows = vec![
        row("b", "late", "2026-02-17T12:00:00Z", "2026-02-17T13:00:00Z", 0, Some("x")),
        row("a", "early", "2026-02-17T08:00:00Z", "2026-02-17T09:00:00Z", 5, None),
        row("b", "ignored", "2026-02-17T00:00:00Z", "2026-02-17T01:00:00Z", 9, Some("y")),
        row("c", "tie", "2026-02-17T12:00:00Z", "2026-02-17T14:00:00Z", 1, None),
    ];

    let gantt = build_gantt_tasks(&rows).expect("valid rows");

    let ids: Vec<&str> = gantt.iter().map(|t| t.id.as_str()).collect();
    assert_eq!(ids, vec!["a", "b", "c"]);
    assert_eq!(gantt[1].title, "late");
    assert_eq!(gantt[1].progress, 0);
    assert_eq!(gantt[1].depends_on, vec!["x".to_string(), "y".to_string()]);
    assert_eq!(gantt[0].start, 1_771_315_200);
    assert!(gantt[0].depends_on.is_empty());
}

#[test]
fn gantt_rejects_unreadable_times() {
    let rows = vec![
        row("a", "ok", "2026-02-17T08:00:00Z", "2026-02-17T09:00:00Z", 5, None),
        row("b", "bad", "2026-02-17T08:00:00Z", "tomorrow", 5, None),
    ];

    assert_eq!(build_gantt_tasks(&rows), Err(RowError { column: 3 }));
}

#[test]
fn project_record_reads_back() {
    let record = ProjectRecord {
        id: "p1".to_string(),
        name: "app".to_string(),
        description: None,
        color: "#10B981".to_string(),
        start_date: "2026-02-17".to_string(),
        end_date: Some("2026-03-01".to_string()),
        status: "archived".to_string(),
        created_at: "2026-02-17T09:00:00Z".to_string(),
        updated_at: "2026-02-17T09:00:00Z".to_string(),
    };

    let project = project_from_record(record.clone()).expect("valid record");
    assert_eq!(project.start_date, 20_501);
    assert_eq!(project.end_date, Some(20_513));
    assert_eq!(project.status, ProjectStatus::Archived);
    assert_eq!(project.created_at, 1_771_318_800);

    let mut bad = record.clone();
    bad.end_date = Some("03/01/2026".to_string());
    assert_eq!(project_from_record(bad), Err(RowError { column: 5 }));

    let mut bad = record;
    bad.start_date = "2026-13-01".to_string();
    bad.created_at = "never".to_string();
    assert_eq!(project_from_record(bad), Err(RowError { column: 4 }));
}

#[test]
fn category_record_reads_back() {
    let ok = category_from_record(CategoryRecord {
        id: "c".to_string(),
        name: "work".to_string(),
        color: "#3B82F6".to_string(),
        created_at: "1970-01-01T00:01:00Z".to_string(),
    })
    .expect("valid");
    assert_eq!(ok.created_at, 60);

    let bad = category_from_record(CategoryRecord {
        id: "c".to_string(),
        name: "work".to_string(),
        color: "#3B82F6".to_string(),
        created_at: "yesterday".to_string(),
    });
    assert_eq!(bad, Err(RowError { column: 3 }));
}

#[test]
fn project_is_stored_and_read_back_as_itself() {
    let project = Project::new(
        "app".to_string(),
        20_501,
        Some(20_530),
        Some("desc".to_string()),
        None,
    )
    .expect("project should be created");

    let r = project_to_record(&project);
    assert_eq!(r.start_date, "2026-02-17");
    assert_eq!(r.end_date.as_deref(), Some("2026-03-18"));
    assert_eq!(r.status, "active");
    assert_eq!(r.color, "#10B981");

    assert_eq!(project_from_record(r), Ok(project));
}

#[test]
fn project_days_at_the_edges_of_four_digit_years_round_trip() {
    let mut project = Project::new("edge".to_string(), -719_528, Some(2_932_896), None, None)
        .expect("project should be created");
    project.created_at = 0;
    project.updated_at = 0;

    let r = project_to_record(&project);
    assert_eq!(r.start_date, "0000-01-01");
    assert_eq!(r.end_date.as_deref(), Some("9999-12-31"));
    assert_eq!(r.created_at, "1970-01-01T00:00:00+00:00");
    assert_eq!(project_from_record(r), Ok(project.clone()));

    project.start_date = -1;
    project.end_date = Some(1);
    let r = project_to_record(&project);
    assert_eq!(r.start_date, "1969-12-31");
    assert_eq!(r.end_date.as_deref(), Some("1970-01-02"));
    assert_eq!(project_from_record(r), Ok(project));
}
