use std::cell::RefCell;

use timeblock_calendar::sync::{
    count_acknowledged, fetch_events, plan_pull, pulled_events, plan_push, pull_action, push_pending,
    record_push, token_expiry, token_needs_refresh, GoogleCalendarClient, GoogleEvent,
    PendingPush, PullAction, PullSyncMode, PushEffect, PushRequest, PushSyncResult,
    TokenRefreshResponse,
};

fn now_ts() -> i64 {
    chrono::Utc::now().timestamp()
}

#[derive(Default)]
struct FakeGoogleClient {
    events: Vec<GoogleEvent>,
    next_token: Option<String>,
    force_etag_mismatch: bool,
    fail_inserts_with: Option<String>,
    seen_time_min: RefCell<Vec<Option<String>>>,
    seen_etags: RefCell<Vec<Option<String>>>,
    seen_calls: RefCell<Vec<String>>,
}

impl GoogleCalendarClient for FakeGoogleClient {
    fn list_events(
        &self,
        calendar_id: &str,
        sync_token: Option<&str>,
        time_min: Option<&str>,
    ) -> Result<(Vec<GoogleEvent>, Option<String>), String> {
        self.seen_calls
            .borrow_mut()
            .push(format!("list {calendar_id} {}", sync_token.unwrap_or("-")));
        self.seen_time_min.borrow_mut().push(time_min.map(|t| t.to_string()));
        Ok((self.events.clone(), self.next_token.clone()))
    }

    fn patch_event(
        &self,
        calendar_id: &str,
        event_id: &str,
        title: &str,
        start: &str,
        end: &str,
        if_match_etag: Option<&str>,
    ) -> Result<GoogleEvent, String> {
        self.seen_calls
            .borrow_mut()
            .push(format!("patch {calendar_id} {event_id} {title} {start} {end}"));
        self.seen_etags.borrow_mut().push(if_match_etag.map(|t| t.to_string()));
        if self.force_etag_mismatch {
            return Err("etag_mismatch".to_string());
        }
        Ok(event("patched-1", false))
    }

    fn insert_event(
        &self,
        calendar_id: &str,
        title: &str,
        start: &str,
        end: &str,
    ) -> Result<GoogleEvent, String> {
        self.seen_calls.borrow_mut().push(format!("insert {calendar_id} {title} {start} {end}"));
        if let Some(reason) = &self.fail_inserts_with {
            return Err(reason.clone());
        }
        Ok(event("inserted-1", false))
    }

    fn refresh_access_token(&self, _refresh_token: &str) -> Result<TokenRefreshResponse, String> {
        Ok(TokenRefreshResponse { access_token: "new-access".to_string(), expires_in_seconds: 3600 })
    }
}

fn event(id: &str, deleted: bool) -> GoogleEvent {
    GoogleEvent {
        id: id.to_string(),
        summary: "task".to_string(),
        start: "2026-02-17T09:00:00Z".to_string(),
        end: "2026-02-17T10:00:00Z".to_string(),
        updated: "2026-02-17T08:00:00Z".to_string(),
        etag: Some("etag-1".to_string()),
        deleted,
    }
}

fn pending(id: &str, google_event_id: Option<&str>, status: &str) -> PendingPush {
    PendingPush {
        id: id.to_string(),
        title: "task".to_string(),
        start: "2026-02-17T09:00:00Z".to_string(),
        end: "2026-02-17T10:00:00Z".to_string(),
        google_event_id: google_event_id.map(|s| s.to_string()),
        etag: Some("etag-1".to_string()),
        sync_status: status.to_string(),
    }
}

#[test]
fn pull_sync_without_sync_token_uses_full_mode() {
    let client = FakeGoogleClient { next_token: Some("next-1".to_string()), ..Default::default() };
    let now = 1_771_318_800; // 2026-02-17T09:00:00Z

    let pulled = fetch_events(&client, "primary", &None, now).expect("pull should succeed");

    assert_eq!(pulled.mode, PullSyncMode::Full);
    assert_eq!(pulled.next_sync_token, Some("next-1".to_string()));
    assert_eq!(
        client.seen_time_min.borrow().clone(),
        vec![Some("2025-02-17T09:00:00+00:00".to_string())]
    );
}

#[test]
fn pull_sync_with_sync_token_uses_delta_mode() {
    let client = FakeGoogleClient { next_token: Some("next-2".to_string()), ..Default::default() };
    let now = now_ts();

    let pulled = fetch_events(&client, "primary", &Some("token-1".to_string()), now)
        .expect("pull should succeed");

    assert_eq!(pulled.mode, PullSyncMode::Delta);
    assert_eq!(client.seen_time_min.borrow().clone(), vec![None]);
    assert_eq!(client.seen_calls.borrow().clone(), vec!["list primary token-1".to_string()]);
}

#[test]
fn pull_plan_without_and_with_token() {
    let now = now_ts();
    assert_eq!(plan_pull(&None, now), (PullSyncMode::Full, Some(now - 365 * 86_400)));
    assert_eq!(plan_pull(&Some("token-1".to_string()), now), (PullSyncMode::Delta, None));
}

#[test]
fn pull_sync_marks_deleted_events_as_cancelled() {
    assert_eq!(pull_action(&event("google-1", true), None), PullAction::Cancel);
    assert_eq!(
        pull_action(&event("google-1", true), Some("tb-1".to_string())),
        PullAction::Cancel
    );
}

#[test]
fn pull_action_updates_linked_or_inserts() {
    assert_eq!(
        pull_action(&event("google-1", false), Some("tb-1".to_string())),
        PullAction::Update("tb-1".to_string())
    );
    assert_eq!(pull_action(&event("google-9", false), None), PullAction::Insert);
}

#[test]
fn push_sync_sends_pending_push_with_patch() {
    let client = FakeGoogleClient::default();
    let items = vec![pending("tb-2", Some("google-2"), "pending_push")];

    let run = push_pending(&client, "primary", &items);

    assert!(run.counts.pushed > 0);
    assert_eq!(run.effects, vec![PushEffect::Synced(event("patched-1", false))]);
    assert_eq!(run.failure, None);
    assert_eq!(client.seen_etags.borrow().clone(), vec![Some("etag-1".to_string())]);
}

#[test]
fn push_sync_marks_conflict_on_etag_mismatch() {
    let client = FakeGoogleClient { force_etag_mismatch: true, ..Default::default() };
    let items = vec![pending("tb-3", Some("google-3"), "pending_push")];

    let run = push_pending(&client, "primary", &items);

    assert_eq!(run.effects, vec![PushEffect::Conflict]);
    assert_eq!(run.counts, PushSyncResult { pushed: 0, conflicts: 1 });
    assert_eq!(run.failure, None);
}

#[test]
fn push_run_acknowledges_inserts_and_stops_at_a_refusal() {
    let client = FakeGoogleClient {
        fail_inserts_with: Some("network down".to_string()),
        ..Default::default()
    };
    let items = vec![
        pending("a", Some("g"), "pending_delete"),
        pending("b", Some("g-b"), "pending_push"),
        pending("c", None, "pending_push"),
        pending("d", Some("g-d"), "pending_push"),
    ];

    let run = push_pending(&client, "primary", &items);

    assert_eq!(
        run.effects,
        vec![PushEffect::Acknowledged, PushEffect::Synced(event("patched-1", false))]
    );
    assert_eq!(run.counts, PushSyncResult { pushed: 2, conflicts: 0 });
    assert_eq!(run.failure, Some("network down".to_string()));
    assert_eq!(
        client.seen_calls.borrow().clone(),
        vec![
            "patch primary g-b task 2026-02-17T09:00:00Z 2026-02-17T10:00:00Z".to_string(),
            "insert primary task 2026-02-17T09:00:00Z 2026-02-17T10:00:00Z".to_string(),
        ]
    );
}

#[test]
fn record_push_counts_accepted_and_conflicting_answers() {
    let (result, effect) = record_push(
        PushSyncResult { pushed: 0, conflicts: 0 },
        Ok(event("patched-1", false)),
    )
    .expect("push should succeed");
    assert_eq!(result, PushSyncResult { pushed: 1, conflicts: 0 });
    assert_eq!(effect, PushEffect::Synced(event("patched-1", false)));

    let outcome = record_push(
        PushSyncResult { pushed: 2, conflicts: 0 },
        Err("etag_mismatch".to_string()),
    )
    .expect("push should succeed");
    assert_eq!(outcome.0, PushSyncResult { pushed: 2, conflicts: 1 });
    assert_eq!(outcome.1, PushEffect::Conflict);
}

#[test]
fn plan_push_patches_linked_blocks_on_stored_etag() {
    assert_eq!(
        plan_push(&pending("tb-2", Some("google-2"), "pending_push")),
        PushRequest::Patch {
            event_id: "google-2".to_string(),
            etag: Some("etag-1".to_string()),
            title: "task".to_string(),
            start: "2026-02-17T09:00:00Z".to_string(),
            end: "2026-02-17T10:00:00Z".to_string(),
        }
    );
}

#[test]
fn push_errors_other_than_etag_mismatch_stop_the_push() {
    let outcome = record_push(
        PushSyncResult { pushed: 0, conflicts: 0 },
        Err("network down".to_string()),
    );
    assert_eq!(outcome, Err("network down".to_string()));

    let mentioned = record_push(
        PushSyncResult { pushed: 0, conflicts: 0 },
        Err("412: etag_mismatch on event".to_string()),
    );
    assert_eq!(
        mentioned.map(|(r, _)| r),
        Ok(PushSyncResult { pushed: 0, conflicts: 1 })
    );
}

#[test]
fn plan_push_deletions_and_inserts() {
    assert_eq!(
        plan_push(&pending("a", Some("g"), "pending_delete")),
        PushRequest::AcknowledgeDelete
    );
    assert_eq!(
        plan_push(&pending("b", None, "pending_push")),
        PushRequest::Insert {
            title: "task".to_string(),
            start: "2026-02-17T09:00:00Z".to_string(),
            end: "2026-02-17T10:00:00Z".to_string(),
        }
    );
    assert_eq!(
        count_acknowledged(PushSyncResult { pushed: 4, conflicts: 1 }),
        PushSyncResult { pushed: 5, conflicts: 1 }
    );
}

#[test]
fn refresh_token_updates_expired_token() {
    let now = now_ts();
    let expired = (chrono::Utc::now() - chrono::Duration::hours(2)).to_rfc3339();

    assert!(token_needs_refresh(&Some(expired), now));
    assert_eq!(token_expiry(now, 3600), now + 3600);
}

#[test]
fn token_refresh_decision_cases() {
    let now = 1_771_318_800; // 2026-02-17T09:00:00Z
    assert!(token_needs_refresh(&None, now));
    assert!(token_needs_refresh(&Some("not a date".to_string()), now));
    assert!(token_needs_refresh(&Some("2026-02-17T09:00:00Z".to_string()), now));
    assert!(!token_needs_refresh(&Some("2026-02-17T09:00:01Z".to_string()), now));
    assert!(!token_needs_refresh(&Some("2026-02-17T18:00:01+09:00".to_string()), now));
}

#[test]
fn pulled_events_keep_the_answer() {
    let ok = pulled_events(
        PullSyncMode::Delta,
        Ok((vec![event("g-1", false)], Some("next".to_string()))),
    )
    .expect("answer accepted");
    assert_eq!(ok.mode, PullSyncMode::Delta);
    assert_eq!(ok.events, vec![event("g-1", false)]);
    assert_eq!(ok.next_sync_token, Some("next".to_string()));

    assert_eq!(
        pulled_events(PullSyncMode::Full, Err("quota".to_string())),
        Err("quota".to_string())
    );
}
