use timeblock_calendar::models::{SyncStatus, TimeBlock, TimeBlockStatus};
use timeblock_calendar::repository::{
    time_block_from_record, time_block_to_record, RowError, TimeBlockRecord,
};

fn record() -> TimeBlockRecord {
    TimeBlockRecord {
        id: "tb-1".to_string(),
        title: "task".to_string(),
        description: None,
        start_time: "2026-02-17T09:00:00Z".to_string(),
        end_time: "2026-02-17T10:00:00+00:00".to_string(),
        category_id: None,
        project_id: Some("p".to_string()),
        google_event_id: Some("g".to_string()),
        calendar_id: None,
        account_id: Some("acc-1".to_string()),
        color: None,
        is_all_day: 1,
        status: "cancelled".to_string(),
        sync_status: "pending_push".to_string(),
        progress: 40,
        local_updated_at: "2026-02-17T08:00:00Z".to_string(),
        google_updated_at: None,
        etag: Some("etag-1".to_string()),
        created_at: "2026-02-17T08:00:00Z".to_string(),
        updated_at: "2026-02-17T08:30:00Z".to_string(),
    }
}

#[test]
fn record_reads_back_as_block() {
    let block = time_block_from_record(record()).expect("valid record");

    assert_eq!(block.id, "tb-1");
    assert_eq!(block.start_time, 1_771_318_800);
    assert_eq!(block.end_time, 1_771_322_400);
    assert!(block.is_all_day);
    assert_eq!(block.status, TimeBlockStatus::Cancelled);
    assert_eq!(block.sync_status, SyncStatus::PendingPush);
    assert_eq!(block.updated_at, 1_771_317_000);
    assert_eq!(block.google_updated_at, None);
}

#[test]
fn record_reports_first_unreadable_column() {
    let mut r = record();
    r.local_updated_at = "soon".to_string();
    r.created_at = "later".to_string();
    assert_eq!(time_block_from_record(r), Err(RowError { column: 15 }));

    let mut r = record();
    r.google_updated_at = Some("never".to_string());
    assert_eq!(time_block_from_record(r), Err(RowError { column: 16 }));

    let mut r = record();
    r.start_time = String::new();
    assert_eq!(time_block_from_record(r), Err(RowError { column: 3 }));
}

#[test]
fn record_unknown_codes_and_flag() {
    let mut r = record();
    r.is_all_day = 2;
    r.status = "maybe".to_string();
    r.sync_status = "weird".to_string();

    let block = time_block_from_record(r).expect("valid record");

    assert!(!block.is_all_day);
    assert_eq!(block.status, TimeBlockStatus::Confirmed);
    assert_eq!(block.sync_status, SyncStatus::Local);
}

#[test]
fn block_is_stored_and_read_back_as_itself() {
    let mut block = TimeBlock::new(
        "write".to_string(),
        Some("notes".to_string()),
        1_771_318_800,
        1_771_322_400,
        Some("c".to_string()),
        None,
        30,
    )
    .expect("valid block");
    block.google_updated_at = Some(1_771_300_000);
    block.status = TimeBlockStatus::Tentative;
    block.sync_status = SyncStatus::Conflict;
    block.is_all_day = true;

    let r = time_block_to_record(&block);
    assert_eq!(r.start_time, "2026-02-17T09:00:00+00:00");
    assert_eq!(r.end_time, "2026-02-17T10:00:00+00:00");
    assert_eq!(r.status, "tentative");
    assert_eq!(r.sync_status, "conflict");
    assert_eq!(r.is_all_day, 1);

    assert_eq!(time_block_from_record(r), Ok(block));
}

#[test]
fn instants_at_the_edges_of_four_digit_years_round_trip() {
    let mut block = TimeBlock::new("edge".to_string(), None, 0, 1, None, None, 0)
        .expect("valid block");
    block.start_time = -62_167_219_200;
    block.end_time = 253_402_300_799;
    block.created_at = 0;
    block.updated_at = -1;
    block.local_updated_at = 0;

    let r = time_block_to_record(&block);
    assert_eq!(r.start_time, "0000-01-01T00:00:00+00:00");
    assert_eq!(r.end_time, "9999-12-31T23:59:59+00:00");
    assert_eq!(r.created_at, "1970-01-01T00:00:00+00:00");
    assert_eq!(r.updated_at, "1969-12-31T23:59:59+00:00");
    assert_eq!(time_block_from_record(r), Ok(block.clone()));

    // A year of five digits is written with a sign, which does not read back.
    block.end_time = 253_402_300_800;
    let r = time_block_to_record(&block);
    assert_eq!(r.end_time, "+10000-01-01T00:00:00+00:00");
    assert_eq!(time_block_from_record(r), Err(RowError { column: 4 }));
}

#[test]
fn record_instants_read_with_their_offset() {
    let mut r = record();
    r.start_time = "1970-01-01T01:00:00+01:00".to_string();
    assert_eq!(time_block_from_record(r).map(|b| b.start_time), Ok(0));

    let mut r = record();
    r.end_time = "1970-01-01 00:00".to_string();
    assert_eq!(time_block_from_record(r), Err(RowError { column: 4 }));
}
