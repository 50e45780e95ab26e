use timeblock_calendar::models::{SyncStatus, TimeBlock};
use timeblock_calendar::repository::{apply_time_block_patch, TimeBlockPatch};
use timeblock_calendar::services::{total_minutes, ScheduleService, ScheduleTask, WORK_END, WORK_START};
use timeblock_calendar::text::{is_blank_str, str_contains};
use timeblock_calendar::time::{at_time, day_bounds, day_of};

const DAY: i64 = 20_501;
const NINE: i64 = DAY * 86_400 + 9 * 3600;

fn raw(start: i64, end: i64) -> TimeBlock {
    let mut b = TimeBlock::new("x".to_string(), None, 0, 1, None, None, 0).expect("valid");
    b.start_time = start;
    b.end_time = end;
    b
}

#[test]
fn slots_avoid_every_proper_block() {
    let blocks = vec![
        raw(NINE + 600, NINE + 1200),
        raw(NINE + 300, NINE + 900),
        raw(NINE + 5000, NINE + 4000),
        raw(NINE + 7000, NINE + 9000),
    ];

    let slots = ScheduleService::find_free_slots(&blocks, DAY, 5, None, WORK_START, WORK_END);

    assert!(!slots.is_empty());
    for s in &slots {
        assert!(s.end - s.start >= 300);
        for b in blocks.iter().filter(|b| b.start_time < b.end_time) {
            assert!(s.end <= b.start_time || s.start >= b.end_time);
        }
    }
}

#[test]
fn degenerate_block_can_split_a_gap() {
    // A block that ends before it starts reserves nothing, yet the sweep
    // takes its start as a boundary and its end as the new cursor, so the
    // two slots it leaves overlap.
    let blocks = vec![raw(NINE + 3600, NINE + 1800)];

    let slots = ScheduleService::find_free_slots(&blocks, DAY, 30, None, WORK_START, WORK_END);

    assert_eq!(slots.len(), 2);
    assert_eq!((slots[0].start, slots[0].end), (NINE, NINE + 3600));
    assert_eq!((slots[1].start, slots[1].end), (NINE + 1800, NINE + 12 * 3600));
}

#[test]
fn scheduled_tasks_never_collide() {
    let tasks: Vec<ScheduleTask> = (0..6)
        .map(|i| ScheduleTask {
            id: format!("t{i}"),
            title: format!("t{i}"),
            duration_minutes: 50 + 20 * i,
            priority: (i % 3) as i32,
            focus: i % 2 == 0,
        })
        .collect();
    let existing = vec![raw(NINE + 3600, NINE + 7200), raw(NINE + 18_000, NINE + 19_000)];

    let s = ScheduleService::suggest_schedule(&tasks, &existing, DAY).expect("valid tasks");

    assert_eq!(s.scheduled.len() + s.warnings.len(), tasks.len());
    for (i, a) in s.scheduled.iter().enumerate() {
        assert!(NINE <= a.start && a.start < a.end && a.end <= NINE + 12 * 3600);
        for b in &existing {
            assert!(a.end <= b.start_time || a.start >= b.end_time);
        }
        for later in &s.scheduled[i + 1..] {
            assert!(later.end <= a.start || later.start >= a.end + 900);
        }
    }
}

#[test]
fn day_helpers() {
    assert_eq!(day_of(0), 0);
    assert_eq!(day_of(86_399), 0);
    assert_eq!(day_of(-1), -1);
    assert_eq!(day_of(-86_400), -1);
    assert_eq!(day_of(-86_401), -2);
    assert_eq!(at_time(1, 60), 86_460);
    assert_eq!(day_bounds(2), (172_800, 259_199));
}

#[test]
fn text_helpers() {
    assert!(is_blank_str(""));
    assert!(is_blank_str(" \t\n\u{00A0}\u{2003}"));
    assert!(!is_blank_str(" a "));
    assert!(str_contains("abc", ""));
    assert!(str_contains("xxabc", "abc"));
    assert!(!str_contains("ab", "abc"));
    assert!(!str_contains("abxc", "abc"));
}

#[test]
fn minutes_round_toward_zero() {
    let blocks = vec![raw(0, 119), raw(1000, 1000 + 3600), raw(100, 0)];

    assert_eq!(total_minutes(&blocks), 1 + 60 - 1);
    assert_eq!(total_minutes(&[]), 0);
}

#[test]
fn count_limit_keeps_the_earliest_slots() {
    let blocks = vec![raw(NINE + 3600, NINE + 7200), raw(NINE + 10_800, NINE + 14_400)];

    let all = ScheduleService::find_free_slots(&blocks, DAY, 30, None, WORK_START, WORK_END);
    assert_eq!(all.len(), 3);
    for c in 0..=4usize {
        let limited =
            ScheduleService::find_free_slots(&blocks, DAY, 30, Some(c), WORK_START, WORK_END);
        assert_eq!(limited, all[..c.min(all.len())].to_vec());
    }

    let zero = ScheduleService::find_free_slots(&blocks, DAY, 30, Some(0), WORK_START, WORK_END);
    assert!(zero.is_empty());
}

#[test]
fn accepted_update_keeps_identity() {
    let block = TimeBlock::new("old".to_string(), None, NINE, NINE + 3600, None, None, 10)
        .expect("valid block");
    let patch = TimeBlockPatch {
        title: Some("new".to_string()),
        end_time: Some(NINE + 7200),
        progress: Some(80),
        ..TimeBlockPatch::default()
    };

    let updated = apply_time_block_patch(block.clone(), &patch, NINE + 100).expect("accepted");

    assert_eq!(updated.id, block.id);
    assert_eq!(updated.created_at, block.created_at);
    assert_eq!(updated.status, block.status);
    assert_eq!(updated.title, "new");
    assert_eq!(updated.start_time, NINE);
    assert_eq!(updated.end_time, NINE + 7200);
    assert_eq!(updated.progress, 80);
    assert_eq!(updated.updated_at, NINE + 100);
    assert_eq!(updated.local_updated_at, NINE + 100);
    assert_eq!(updated.sync_status, SyncStatus::PendingPush);
}

#[test]
fn empty_window_needs_no_duration_bound() {
    let blocks = vec![raw(NINE, NINE + 3600)];
    assert!(ScheduleService::find_free_slots(&blocks, DAY, i64::MAX, None, WORK_END, WORK_START)
        .is_empty());
    assert!(ScheduleService::find_free_slots(&blocks, DAY, i64::MIN, Some(3), WORK_START, WORK_END)
        .is_empty());
}
