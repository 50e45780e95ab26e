//! Synchronisation with a remote calendar: fetching remote events and the
//! decision of what each does to the local blocks, pushing local changes
//! and what each answer does to them, and refreshing the access token. The
//! calendar service is called here through the client the caller hands in;
//! the database stays with the caller, which records the effects.
use vstd::prelude::*;

use crate::text::{contains_text, str_contains, str_eq};
use crate::time::{
    format_rfc3339, parse_rfc3339, spec_format_rfc3339, spec_parse_rfc3339, valid_timestamp,
    MAX_DURATION_SECONDS, SECONDS_PER_DAY,
};

verus! {

/// An event of the remote calendar.
#[derive(Debug, Clone, PartialEq, Eq)]
pub struct GoogleEvent {
    pub id: String,
    pub summary: String,
    /// RFC 3339 date and time.
    pub start: String,
    /// RFC 3339 date and time.
    pub end: String,
    /// RFC 3339 date and time.
    pub updated: String,
    pub etag: Option<String>,
    pub deleted: bool,
}

/// Whether a pull reads the whole calendar or the changes since the last
/// one.
#[derive(Debug, Clone, Copy, PartialEq, Eq, Structural)]
pub enum PullSyncMode {
    Full,
    Delta,
}

/// What a pull did.
#[derive(Debug, Clone, PartialEq, Eq)]
pub struct PullSyncResult {
    pub mode: PullSyncMode,
    pub pulled: usize,
    pub next_sync_token: Option<String>,
}

/// What a push did.
#[derive(Debug, Clone, Copy, PartialEq, Eq, Structural)]
pub struct PushSyncResult {
    pub pushed: usize,
    pub conflicts: usize,
}

/// A renewed access token.
#[derive(Debug, Clone, PartialEq, Eq)]
pub struct TokenRefreshResponse {
    pub access_token: String,
    pub expires_in_seconds: i64,
}

/// An optional text as plain characters.
pub open spec fn opt_text(t: Option<&str>) -> Option<Seq<char>> {
    match t {
        Some(s) => Some(s@),
        None => None,
    }
}

/// An optional owned text as plain characters.
pub open spec fn opt_string(t: Option<String>) -> Option<Seq<char>> {
    match t {
        Some(s) => Some(s@),
        None => None,
    }
}

/// The remote calendar service.
pub trait GoogleCalendarClient {
    /// `answer` is a reply that the service may give to a listing of the
    /// calendar's events. A client that says nothing of its replies may give
    /// any.
    open spec fn list_answer(
        &self,
        calendar_id: Seq<char>,
        sync_token: Option<Seq<char>>,
        time_min: Option<Seq<char>>,
        answer: Result<(Vec<GoogleEvent>, Option<String>), String>,
    ) -> bool {
        true
    }

    /// `answer` is a reply that the service may give to a change of an
    /// event.
    open spec fn patch_answer(
        &self,
        calendar_id: Seq<char>,
        event_id: Seq<char>,
        title: Seq<char>,
        start: Seq<char>,
        end: Seq<char>,
        if_match_etag: Option<Seq<char>>,
        answer: Result<GoogleEvent, String>,
    ) -> bool {
        true
    }

    /// `answer` is a reply that the service may give to an added event.
    open spec fn insert_answer(
        &self,
        calendar_id: Seq<char>,
        title: Seq<char>,
        start: Seq<char>,
        end: Seq<char>,
        answer: Result<GoogleEvent, String>,
    ) -> bool {
        true
    }

    /// The events of the calendar (all since `time_min`, or the changes since
    /// `sync_token`) and the token for the next pull.
    fn list_events(
        &self,
        calendar_id: &str,
        sync_token: Option<&str>,
        time_min: Option<&str>,
    ) -> (r: Result<(Vec<GoogleEvent>, Option<String>), String>)
        ensures
            self.list_answer(calendar_id@, opt_text(sync_token), opt_text(time_min), r),
    ;

    /// Changes an event, on condition that its etag still matches.
    fn patch_event(
        &self,
        calendar_id: &str,
        event_id: &str,
        title: &str,
        start: &str,
        end: &str,
        if_match_etag: Option<&str>,
    ) -> (r: Result<GoogleEvent, String>)
        ensures
            self.patch_answer(
                calendar_id@,
                event_id@,
                title@,
                start@,
                end@,
                opt_text(if_match_etag),
                r,
            ),
    ;

    /// Adds an event.
    fn insert_event(&self, calendar_id: &str, title: &str, start: &str, end: &str) -> (r: Result<
        GoogleEvent,
        String,
    >)
        ensures
            self.insert_answer(calendar_id@, title@, start@, end@, r),
    ;

    /// A new access token for the refresh token.
    fn refresh_access_token(&self, refresh_token: &str) -> Result<TokenRefreshResponse, String>;
}

/// How far back a full pull reads: 365 days.
pub const FULL_SYNC_WINDOW_SECONDS: i64 = 31_536_000;

/// How a pull goes: with a stored sync token it asks for the changes since
/// then; without one it reads everything from 365 days before `now`.
pub fn plan_pull(sync_token: &Option<String>, now: i64) -> (r: (PullSyncMode, Option<i64>))
    requires
        valid_timestamp(now as int),
        valid_timestamp(now - FULL_SYNC_WINDOW_SECONDS),
    ensures
        sync_token is Some ==> r == (PullSyncMode::Delta, None::<i64>),
        sync_token is None ==> r == (PullSyncMode::Full, Some((now - 365 * SECONDS_PER_DAY) as i64)),
{
    match sync_token {
        Some(_) => (PullSyncMode::Delta, None),
        None => (PullSyncMode::Full, Some(now - 365 * SECONDS_PER_DAY)),
    }
}

/// What a pull fetched: how it read, the events, and the token for the next
/// pull.
#[derive(Debug, Clone, PartialEq, Eq)]
pub struct PulledEvents {
    pub mode: PullSyncMode,
    pub events: Vec<GoogleEvent>,
    pub next_sync_token: Option<String>,
}

/// What a pull makes of the service's answer: the listed events and the next
/// token, read in `mode`, or the service's refusal as it is.
pub open spec fn pulled_outcome(
    mode: PullSyncMode,
    answer: Result<(Vec<GoogleEvent>, Option<String>), String>,
) -> Result<PulledEvents, String> {
    match answer {
        Ok((events, next_sync_token)) => Ok(PulledEvents { mode, events, next_sync_token }),
        Err(reason) => Err(reason),
    }
}

/// How a pull reads: the changes since the stored sync token, or everything.
pub open spec fn pull_mode(sync_token: Option<String>) -> PullSyncMode {
    if sync_token is Some {
        PullSyncMode::Delta
    } else {
        PullSyncMode::Full
    }
}

/// The start of the window a full pull at `now` asks for, as RFC 3339 text:
/// none with a stored sync token.
pub open spec fn pull_window(sync_token: Option<String>, now: i64) -> Option<Seq<char>> {
    if sync_token is Some {
        None
    } else {
        Some(spec_format_rfc3339((now - FULL_SYNC_WINDOW_SECONDS) as i64))
    }
}

/// What a pull makes of the service's answer: the listed events and the next
/// token, read in `mode`, or the service's refusal as it is.
pub fn pulled_events(
    mode: PullSyncMode,
    answer: Result<(Vec<GoogleEvent>, Option<String>), String>,
) -> (r: Result<PulledEvents, String>)
    ensures
        r == pulled_outcome(mode, answer),
{
    match answer {
        Ok((events, next_sync_token)) => Ok(PulledEvents { mode, events, next_sync_token }),
        Err(reason) => Err(reason),
    }
}

/// Fetches the remote events for a pull at `now`: asks the service for the
/// calendar's events with the stored sync token, if any, or, without one,
/// for everything from 365 days before `now` (handed over as RFC 3339 text),
/// and gives back its answer: the events and the next token, or its refusal
/// as it is.
pub fn fetch_events<C: GoogleCalendarClient + ?Sized>(
    client: &C,
    calendar_id: &str,
    sync_token: &Option<String>,
    now: i64,
) -> (r: Result<PulledEvents, String>)
    requires
        valid_timestamp(now as int),
        valid_timestamp(now - FULL_SYNC_WINDOW_SECONDS),
    ensures
        r matches Ok(p) ==> p.mode == (if sync_token is Some {
            PullSyncMode::Delta
        } else {
            PullSyncMode::Full
        }),
        exists|answer: Result<(Vec<GoogleEvent>, Option<String>), String>|
            #[trigger] client.list_answer(
                calendar_id@,
                opt_string(*sync_token),
                pull_window(*sync_token, now),
                answer,
            ) && r == pulled_outcome(pull_mode(*sync_token), answer),
{
    let (mode, time_min) = plan_pull(sync_token, now);
    let time_min_text: Option<String> = match time_min {
        Some(t) => Some(format_rfc3339(t)),
        None => None,
    };
    let token: Option<&str> = match sync_token {
        Some(t) => Some(t.as_str()),
        None => None,
    };
    let min: Option<&str> = match &time_min_text {
        Some(t) => Some(t.as_str()),
        None => None,
    };
    let answer = client.list_events(calendar_id, token, min);
    pulled_events(mode, answer)
}

/// What a pulled event does to the local blocks.
#[derive(Debug, Clone, PartialEq, Eq)]
pub enum PullAction {
    /// The event was deleted remotely: the blocks linked to it are cancelled.
    Cancel,
    /// The block with this id is linked to the event: it takes the event's
    /// title, times and etag.
    Update(String),
    /// No block is linked to the event: a new one is made from it.
    Insert,
}

/// What a pulled event does: a deleted event cancels its blocks; a live one
/// updates the block linked to it (`linked`, looked up for live events only)
/// or becomes a new block.
pub fn pull_action(event: &GoogleEvent, linked: Option<String>) -> (r: PullAction)
    ensures
        event.deleted ==> r == PullAction::Cancel,
        !event.deleted ==> r == (match linked {
            Some(id) => PullAction::Update(id),
            None => PullAction::Insert,
        }),
{
    if event.deleted {
        return PullAction::Cancel;
    }
    match linked {
        Some(id) => PullAction::Update(id),
        None => PullAction::Insert,
    }
}

/// A local block waiting to be pushed, as stored.
#[derive(Debug, Clone, PartialEq, Eq)]
pub struct PendingPush {
    pub id: String,
    pub title: String,
    pub start: String,
    pub end: String,
    pub google_event_id: Option<String>,
    pub etag: Option<String>,
    pub sync_status: String,
}

/// What pushing a pending block asks of the remote calendar.
#[derive(Debug, Clone, PartialEq, Eq)]
pub enum PushRequest {
    /// A deletion: nothing is sent, the block is marked synced.
    AcknowledgeDelete,
    /// The block is linked to this event: it is patched, on the stored etag,
    /// with the block's title and times.
    Patch { event_id: String, etag: Option<String>, title: String, start: String, end: String },
    /// The block has no event yet: one is added with its title and times.
    Insert { title: String, start: String, end: String },
}

/// What pushing a pending block asks: a pending deletion is only marked
/// synced; a block linked to an event patches it, on the stored etag; any
/// other block adds an event. Both send the block's title and times.
pub fn plan_push(item: &PendingPush) -> (r: PushRequest)
    ensures
        item.sync_status@ == "pending_delete"@ ==> r == PushRequest::AcknowledgeDelete,
        item.sync_status@ != "pending_delete"@ ==> r == (match item.google_event_id {
            Some(e) => PushRequest::Patch {
                event_id: e,
                etag: item.etag,
                title: item.title,
                start: item.start,
                end: item.end,
            },
            None => PushRequest::Insert { title: item.title, start: item.start, end: item.end },
        }),
{
    if str_eq(item.sync_status.as_str(), "pending_delete") {
        return PushRequest::AcknowledgeDelete;
    }
    let title = item.title.clone();
    let start = item.start.clone();
    let end = item.end.clone();
    match &item.google_event_id {
        Some(e) => PushRequest::Patch {
            event_id: e.clone(),
            etag: match &item.etag {
                Some(t) => Some(t.clone()),
                None => None,
            },
            title,
            start,
            end,
        },
        None => PushRequest::Insert { title, start, end },
    }
}

/// What a push does to a pending block.
#[derive(Debug, Clone, PartialEq, Eq)]
pub enum PushEffect {
    /// A pending deletion: the block is marked synced, nothing is sent.
    Acknowledged,
    /// The block is synced with this remote event (its id, when the block had
    /// none, its etag and its update time).
    Synced(GoogleEvent),
    /// The remote event changed meanwhile: the block is marked in conflict.
    Conflict,
}

/// The count after a pending deletion was acknowledged.
pub fn count_acknowledged(result: PushSyncResult) -> (r: PushSyncResult)
    requires
        result.pushed < usize::MAX,
    ensures
        r == (PushSyncResult { pushed: (result.pushed + 1) as usize, conflicts: result.conflicts }),
{
    PushSyncResult { pushed: result.pushed + 1, conflicts: result.conflicts }
}

/// The outcome of a push request: an accepted one counts as pushed and syncs
/// the block; a refusal whose reason mentions `etag_mismatch` counts as a
/// conflict; any other refusal ends the push with that reason.
pub fn record_push(result: PushSyncResult, answer: Result<GoogleEvent, String>) -> (r: Result<
    (PushSyncResult, PushEffect),
    String,
>)
    requires
        result.pushed < usize::MAX,
        result.conflicts < usize::MAX,
    ensures
        answer matches Ok(remote) ==> r == Ok::<(PushSyncResult, PushEffect), String>(
            (
                PushSyncResult { pushed: (result.pushed + 1) as usize, conflicts: result.conflicts },
                PushEffect::Synced(remote),
            ),
        ),
        answer matches Err(reason) ==> (if contains_text(reason@, "etag_mismatch"@) {
            r == Ok::<(PushSyncResult, PushEffect), String>(
                (
                    PushSyncResult {
                        pushed: result.pushed,
                        conflicts: (result.conflicts + 1) as usize,
                    },
                    PushEffect::Conflict,
                ),
            )
        } else {
            r == Err::<(PushSyncResult, PushEffect), String>(reason)
        }),
{
    match answer {
        Ok(remote) => Ok(
            (
                PushSyncResult { pushed: result.pushed + 1, conflicts: result.conflicts },
                PushEffect::Synced(remote),
            ),
        ),
        Err(reason) => {
            if str_contains(reason.as_str(), "etag_mismatch") {
                Ok(
                    (
                        PushSyncResult { pushed: result.pushed, conflicts: result.conflicts + 1 },
                        PushEffect::Conflict,
                    ),
                )
            } else {
                Err(reason)
            }
        },
    }
}

/// How many blocks a push synced (acknowledged or accepted) and how many it
/// found in conflict.
pub open spec fn tally(effects: Seq<PushEffect>) -> (nat, nat)
    decreases effects.len(),
{
    if effects.len() == 0 {
        (0, 0)
    } else {
        let (pushed, conflicts) = tally(effects.drop_last());
        if effects.last() is Conflict {
            (pushed, conflicts + 1)
        } else {
            (pushed + 1, conflicts)
        }
    }
}

/// The pending block is a deletion waiting to be acknowledged.
pub open spec fn is_pending_delete(item: PendingPush) -> bool {
    item.sync_status@ == "pending_delete"@
}

/// `answer` is a reply that the service may give to the request a pending
/// block (no deletion) makes: a patch of its linked event on its stored etag,
/// or an added event, with its title and times.
pub open spec fn push_answer<C: GoogleCalendarClient + ?Sized>(
    client: &C,
    calendar_id: Seq<char>,
    item: PendingPush,
    answer: Result<GoogleEvent, String>,
) -> bool {
    match item.google_event_id {
        Some(e) => client.patch_answer(
            calendar_id,
            e@,
            item.title@,
            item.start@,
            item.end@,
            opt_string(item.etag),
            answer,
        ),
        None => client.insert_answer(calendar_id, item.title@, item.start@, item.end@, answer),
    }
}

/// The effect that an answer has on a block: an accepted request syncs it
/// with the remote event, a refusal that mentions `etag_mismatch` marks it
/// in conflict.
pub open spec fn answer_effect(answer: Result<GoogleEvent, String>, effect: PushEffect) -> bool {
    match answer {
        Ok(remote) => effect == PushEffect::Synced(remote),
        Err(reason) => contains_text(reason@, "etag_mismatch"@) && effect == PushEffect::Conflict,
    }
}

/// What a push run did: the effect on each block, in order, up to the first
/// refusal that is no conflict; the counts; and that refusal, if any.
#[derive(Debug, Clone, PartialEq, Eq)]
pub struct PushRun {
    pub effects: Vec<PushEffect>,
    pub counts: PushSyncResult,
    pub failure: Option<String>,
}

/// Pushes the pending blocks in order: a pending deletion is acknowledged
/// without a request; a block linked to a remote event patches it on the
/// stored etag; any other block adds an event; both send the block's title
/// and times. An accepted request syncs the
/// block, a refusal that mentions `etag_mismatch` marks it in conflict, and
/// any other refusal ends the run. The effects are for the caller to record.
pub fn push_pending<C: GoogleCalendarClient + ?Sized>(
    client: &C,
    calendar_id: &str,
    pending: &[PendingPush],
) -> (r: PushRun)
    ensures
        r.effects@.len() <= pending@.len(),
        r.failure is None ==> r.effects@.len() == pending@.len(),
        r.failure matches Some(reason) ==> r.effects@.len() < pending@.len()
            && !is_pending_delete(pending@[r.effects@.len() as int])
            && !contains_text(reason@, "etag_mismatch"@),
        r.failure matches Some(reason) ==> push_answer(
            client,
            calendar_id@,
            pending@[r.effects@.len() as int],
            Err(reason),
        ),
        forall|i: int|
            0 <= i < r.effects@.len() ==> (is_pending_delete(pending@[i]) <==> (
            #[trigger] r.effects@[i]) is Acknowledged),
        forall|i: int|
            0 <= i < r.effects@.len() && !is_pending_delete(pending@[i]) ==> exists|
                answer: Result<GoogleEvent, String>,
            |
                #[trigger] push_answer(client, calendar_id@, pending@[i], answer) && answer_effect(
                    answer,
                    r.effects@[i],
                ),
        r.counts.pushed == tally(r.effects@).0,
        r.counts.conflicts == tally(r.effects@).1,
{
    let n = pending.len();
    let mut effects: Vec<PushEffect> = Vec::new();
    let mut counts = PushSyncResult { pushed: 0, conflicts: 0 };
    let mut i: usize = 0;
    while i < n
        invariant
            n == pending@.len(),
            i <= n,
            effects@.len() == i,
            forall|k: int|
                0 <= k < i ==> (is_pending_delete(pending@[k]) <==> (
                #[trigger] effects@[k]) is Acknowledged),
            forall|k: int|
                0 <= k < i && !is_pending_delete(pending@[k]) ==> exists|
                    answer: Result<GoogleEvent, String>,
                |
                    #[trigger] push_answer(client, calendar_id@, pending@[k], answer)
                        && answer_effect(answer, effects@[k]),
            counts.pushed == tally(effects@).0,
            counts.conflicts == tally(effects@).1,
            counts.pushed + counts.conflicts == i,
        decreases n - i,
    {
        let item = &pending[i];
        let answer = match plan_push(item) {
            PushRequest::AcknowledgeDelete => {
                counts = count_acknowledged(counts);
                proof {
                    assert(effects@.push(PushEffect::Acknowledged).drop_last() =~= effects@);
                }
                effects.push(PushEffect::Acknowledged);
                i = i + 1;
                continue;
            },
            PushRequest::Patch { event_id, etag, title, start, end } => {
                let tag: Option<&str> = match &etag {
                    Some(t) => Some(t.as_str()),
                    None => None,
                };
                client.patch_event(
                    calendar_id,
                    event_id.as_str(),
                    title.as_str(),
                    start.as_str(),
                    end.as_str(),
                    tag,
                )
            },
            PushRequest::Insert { title, start, end } => client.insert_event(
                calendar_id,
                title.as_str(),
                start.as_str(),
                end.as_str(),
            ),
        };
        assert(push_answer(client, calendar_id@, pending@[i as int], answer));
        match record_push(counts, answer) {
            Ok((next, effect)) => {
                counts = next;
                proof {
                    assert(answer_effect(answer, effect));
                    assert(effects@.push(effect).drop_last() =~= effects@);
                    let e2 = effects@.push(effect);
                    assert forall|k: int|
                        0 <= k < i + 1 && !is_pending_delete(pending@[k]) implies exists|
                            a: Result<GoogleEvent, String>,
                        |
                            #[trigger] push_answer(client, calendar_id@, pending@[k], a)
                                && answer_effect(a, e2[k]) by {
                        if k == i {
                            assert(push_answer(client, calendar_id@, pending@[k], answer));
                        } else {
                            assert(e2[k] == effects@[k]);
                        }
                    }
                }
                effects.push(effect);
            },
            Err(reason) => {
                return PushRun { effects, counts, failure: Some(reason) };
            },
        }
        i = i + 1;
    }
    PushRun { effects, counts, failure: None }
}

/// The access token needs renewing: no expiry is stored, the stored one does
/// not read as an RFC 3339 date and time, or it is not after `now`.
pub open spec fn spec_needs_refresh(expires_at: Option<String>, now: i64) -> bool {
    match expires_at {
        Some(v) => match spec_parse_rfc3339(v@) {
            Some(t) => t <= now,
            None => true,
        },
        None => true,
    }
}

/// Whether the access token needs renewing at `now`.
pub fn token_needs_refresh(expires_at: &Option<String>, now: i64) -> (r: bool)
    ensures
        r == spec_needs_refresh(*expires_at, now),
{
    match expires_at {
        Some(v) => match parse_rfc3339(v.as_str()) {
            Some(t) => t <= now,
            None => true,
        },
        None => true,
    }
}

/// When a token renewed at `now` for `expires_in_seconds` expires.
pub fn token_expiry(now: i64, expires_in_seconds: i64) -> (r: i64)
    requires
        -MAX_DURATION_SECONDS <= expires_in_seconds <= MAX_DURATION_SECONDS,
        valid_timestamp(now as int),
        valid_timestamp(now + expires_in_seconds),
    ensures
        r == now + expires_in_seconds,
{
    now + expires_in_seconds
}

} // verus!
