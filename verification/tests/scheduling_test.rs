use timeblock_calendar::models::TimeBlock;
use timeblock_calendar::services::{FreeSlot, ScheduleService, ScheduleTask, WORK_END, WORK_START};
use timeblock_calendar::time::day_of;
use timeblock_calendar::validation::ValidationError;

fn now_ts() -> i64 {
    chrono::Utc::now().timestamp()
}

const HOUR: i64 = 3600;

fn today() -> i64 {
    day_of(now_ts())
}

fn nine_am(date: i64) -> i64 {
    date * 86_400 + 9 * HOUR
}

fn busy(title: &str, start: i64, end: i64) -> TimeBlock {
    TimeBlock::new(title.to_string(), None, start, end, None, None, 0).expect("seed should succeed")
}

fn find(blocks: &[TimeBlock], date: i64, minutes: i64, count: Option<usize>) -> Vec<FreeSlot> {
    ScheduleService::find_free_slots(blocks, date, minutes, count, WORK_START, WORK_END)
}

fn task(id: &str, minutes: i64, priority: i32, focus: bool) -> ScheduleTask {
    ScheduleTask {
        id: id.to_string(),
        title: id.to_string(),
        duration_minutes: minutes,
        priority,
        focus,
    }
}

fn feb_17_2026() -> i64 {
    let date = chrono::NaiveDate::from_ymd_opt(2026, 2, 17).expect("date should be valid");
    date.signed_duration_since(chrono::NaiveDate::default()).num_days()
}

#[test]
fn find_free_slots_returns_full_business_hours_when_no_blocks() {
    let date = today();

    let slots = find(&[], date, 30, None);

    assert_eq!(slots.len(), 1);
    assert_eq!(day_of(slots[0].start), date);
    assert_eq!(day_of(slots[0].end), date);
}

#[test]
fn find_free_slots_returns_empty_when_all_day_occupied() {
    let date = today();
    let day_start = nine_am(date);
    let blocks = vec![busy("busy", day_start, day_start + 12 * HOUR)];

    let slots = find(&blocks, date, 30, None);

    assert!(slots.is_empty());
}

#[test]
fn find_free_slots_returns_empty_when_duration_larger_than_remaining() {
    let date = today();

    let slots = find(&[], date, 24 * 60, None);

    assert!(slots.is_empty());
}

#[test]
fn find_free_slots_detects_exact_gap() {
    let date = today();
    let day_start = nine_am(date);
    let blocks = vec![
        busy("morning", day_start, day_start + 2 * HOUR),
        busy("afternoon", day_start + 3 * HOUR, day_start + 12 * HOUR),
    ];

    let slots = find(&blocks, date, 60, None);

    assert_eq!(slots.len(), 1);
    assert_eq!(slots[0].start, day_start + 2 * HOUR);
    assert_eq!(slots[0].end, day_start + 3 * HOUR);
}

#[test]
fn find_free_slots_returns_all_fragmented_slots() {
    let date = today();
    let day_start = nine_am(date);
    let blocks: Vec<TimeBlock> = [1, 3, 5]
        .iter()
        .map(|hour| {
            busy(
                &format!("busy-{hour}"),
                day_start + hour * HOUR,
                day_start + (hour + 1) * HOUR,
            )
        })
        .collect();

    let slots = find(&blocks, date, 30, None);

    assert!(slots.len() >= 3);
}

#[test]
fn find_free_slots_respects_count_limit() {
    let date = today();

    let slots = find(&[], date, 30, Some(1));

    assert_eq!(slots.len(), 1);
}

#[test]
fn suggest_schedule_places_high_priority_first() {
    let date = feb_17_2026();

    let result = ScheduleService::suggest_schedule(
        &[task("low", 60, 1, false), task("high", 60, 10, true)],
        &[],
        date,
    )
    .expect("suggest should succeed");

    assert_eq!(result.scheduled.first().expect("one task").task_id, "high");
}

#[test]
fn suggest_schedule_returns_warning_on_capacity_overflow() {
    let date = feb_17_2026();

    let result = ScheduleService::suggest_schedule(
        &[task("big", 13 * 60, 10, true), task("small", 60, 1, false)],
        &[],
        date,
    )
    .expect("suggest should succeed");

    assert!(!result.warnings.is_empty());
}

#[test]
fn suggest_schedule_inserts_buffer_between_tasks() {
    let date = feb_17_2026();

    let result = ScheduleService::suggest_schedule(
        &[task("a", 60, 10, true), task("b", 60, 9, true)],
        &[],
        date,
    )
    .expect("suggest should succeed");

    assert!(result.scheduled.len() >= 2);
    let gap = result.scheduled[1].start - result.scheduled[0].end;
    assert!(gap >= 15 * 60);
}

#[test]
fn suggest_schedule_places_focus_task_in_morning() {
    let date = feb_17_2026();

    let result = ScheduleService::suggest_schedule(&[task("focus", 60, 10, true)], &[], date)
        .expect("suggest should succeed");

    assert!((result.scheduled[0].start - date * 86_400) / HOUR < 12);
}

#[test]
fn feb_17_2026_is_day_20501() {
    assert_eq!(feb_17_2026(), 20_501);
}

#[test]
fn suggest_schedule_exact_placement() {
    let date = feb_17_2026();
    let nine = nine_am(date);

    let result = ScheduleService::suggest_schedule(
        &[
            task("later", 30, 1, false),
            task("first", 60, 5, true),
            task("tie-focus", 60, 5, true),
        ],
        &[],
        date,
    )
    .expect("suggest should succeed");

    let placed: Vec<(String, i64, i64)> = result
        .scheduled
        .iter()
        .map(|s| (s.task_id.clone(), s.start - nine, s.end - nine))
        .collect();
    assert_eq!(
        placed,
        vec![
            ("first".to_string(), 0, 3600),
            ("tie-focus".to_string(), 4500, 8100),
            ("later".to_string(), 9900, 11700),
        ]
    );
    assert!(result.warnings.is_empty());
}

#[test]
fn suggest_schedule_warning_texts() {
    let date = feb_17_2026();

    let result = ScheduleService::suggest_schedule(
        &[task("whole-day", 12 * 60, 3, false), task("huge", 13 * 60, 2, true)],
        &[],
        date,
    )
    .expect("suggest should succeed");

    assert!(result.scheduled.is_empty());
    assert_eq!(
        result.warnings,
        vec![
            "task 'whole-day' does not fit available slots".to_string(),
            "task 'huge' exceeded daily capacity".to_string(),
        ]
    );
}

#[test]
fn suggest_schedule_avoids_existing_blocks() {
    let date = feb_17_2026();
    let nine = nine_am(date);
    let existing = vec![busy("standup", nine, nine + HOUR)];

    let result = ScheduleService::suggest_schedule(&[task("deep", 60, 1, true)], &existing, date)
        .expect("suggest should succeed");

    assert_eq!(result.scheduled[0].start, nine + HOUR);
    assert_eq!(result.scheduled[0].end, nine + 2 * HOUR);
}

#[test]
fn suggest_schedule_rejects_blank_title() {
    let date = feb_17_2026();
    let mut blank = task("x", 30, 1, false);
    blank.title = "  ".to_string();

    let result = ScheduleService::suggest_schedule(&[task("ok", 30, 1, false), blank], &[], date);

    assert_eq!(result, Err(ValidationError::Empty { field: "title" }));
}

#[test]
fn suggest_schedule_zero_minutes_task_gets_capacity_warning() {
    let date = feb_17_2026();

    let result = ScheduleService::suggest_schedule(&[task("none", 0, 1, true)], &[], date)
        .expect("suggest should succeed");

    assert_eq!(result.warnings, vec!["task 'none' exceeded daily capacity".to_string()]);
}

#[test]
fn find_free_slots_exact_fragments_and_limits() {
    let date = feb_17_2026();
    let nine = nine_am(date);
    let blocks = vec![
        busy("b", nine + 3 * HOUR, nine + 4 * HOUR),
        busy("a", nine + HOUR, nine + 2 * HOUR),
    ];

    let all = find(&blocks, date, 30, None);
    assert_eq!(
        all,
        vec![
            FreeSlot { start: nine, end: nine + HOUR },
            FreeSlot { start: nine + 2 * HOUR, end: nine + 3 * HOUR },
            FreeSlot { start: nine + 4 * HOUR, end: nine + 12 * HOUR },
        ]
    );
    assert_eq!(find(&blocks, date, 30, Some(2)), all[..2].to_vec());
    assert_eq!(find(&blocks, date, 30, Some(0)), Vec::<FreeSlot>::new());
    assert_eq!(find(&[], date, 30, Some(0)), Vec::<FreeSlot>::new());
    assert_eq!(find(&blocks, date, 0, None), Vec::<FreeSlot>::new());
    assert_eq!(find(&blocks, date, 61, None), vec![all[2]]);
}

#[test]
fn find_free_slots_clips_blocks_to_working_hours() {
    let date = feb_17_2026();
    let nine = nine_am(date);
    let blocks = vec![
        busy("early", nine - 2 * HOUR, nine + HOUR),
        busy("late", nine + 11 * HOUR, nine + 20 * HOUR),
    ];

    let slots = find(&blocks, date, 60, None);

    assert_eq!(slots, vec![FreeSlot { start: nine + HOUR, end: nine + 11 * HOUR }]);
}

#[test]
fn find_free_slots_empty_when_hours_reversed() {
    let date = feb_17_2026();

    let slots = ScheduleService::find_free_slots(&[], date, 30, None, WORK_END, WORK_START);

    assert!(slots.is_empty());
}

#[test]
fn focus_task_is_not_placed_after_noon() {
    let date = feb_17_2026();
    let nine = nine_am(date);
    let morning = [busy("meetings", nine, nine + 3 * HOUR)];

    let result = ScheduleService::suggest_schedule(
        &[task("deep", 60, 10, true), task("chores", 60, 1, false)],
        &morning,
        date,
    )
    .expect("suggest should succeed");

    assert_eq!(result.warnings, vec!["task 'deep' does not fit in the morning".to_string()]);
    assert_eq!(result.scheduled.len(), 1);
    assert_eq!(result.scheduled[0].task_id, "chores");
    assert_eq!(result.scheduled[0].start, nine + 3 * HOUR + 15 * 60);
}

#[test]
fn focus_task_starting_before_noon_is_placed() {
    let date = feb_17_2026();
    let nine = nine_am(date);
    let morning = [busy("meetings", nine, nine + 2 * HOUR + 30 * 60)];

    let result = ScheduleService::suggest_schedule(&[task("deep", 120, 10, true)], &morning, date)
        .expect("suggest should succeed");

    assert!(result.warnings.is_empty());
    assert_eq!(result.scheduled[0].start, nine + 2 * HOUR + 30 * 60);
    assert_eq!(result.scheduled[0].end, nine + 4 * HOUR + 30 * 60);
}

#[test]
fn blank_title_is_refused_before_durations_are_looked_at() {
    let mut big = task("big", i64::MAX, 1, false);
    big.title = "  ".to_string();

    let result = ScheduleService::suggest_schedule(&[big], &[], feb_17_2026());

    assert_eq!(result, Err(ValidationError::Empty { field: "title" }));
}

#[test]
fn buffer_kept_before_a_task_without_focus() {
    let date = feb_17_2026();
    let nine = nine_am(date);

    let result = ScheduleService::suggest_schedule(
        &[task("a", 60, 10, false), task("b", 15, 5, true)],
        &[],
        date,
    )
    .expect("suggest should succeed");

    assert_eq!(result.scheduled[0].start, nine + 15 * 60);
    assert_eq!(result.scheduled[0].end, nine + HOUR + 15 * 60);
    assert_eq!(result.scheduled[1].start, nine + HOUR + 30 * 60);
    assert_eq!(result.scheduled[1].end, nine + HOUR + 45 * 60);
    for (i, x) in result.scheduled.iter().enumerate() {
        for (j, y) in result.scheduled.iter().enumerate() {
            if i != j {
                assert!(x.end + 15 * 60 <= y.start || y.end + 15 * 60 <= x.start);
            }
        }
    }
}
