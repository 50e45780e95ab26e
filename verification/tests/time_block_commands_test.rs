use timeblock_calendar::models::TimeBlock;

fn now_ts() -> i64 {
    chrono::Utc::now().timestamp()
}

#[test]
fn create_command_success() {
    let now = now_ts();

    let block = TimeBlock::new("task".to_string(), None, now, now + 3600, None, None, 0)
        .expect("create command should succeed");

    assert_eq!(block.title, "task");
}
