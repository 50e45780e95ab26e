//! The rules of the time-block store: which blocks a listing asks for, how a
//! partial update changes a block, which columns a block is stored as, and
//! how a stored row reads back as a block.
use vstd::prelude::*;
use vstd::string::StringExecFns;

use crate::models::{
    lemma_sync_status_code_round_trip, lemma_time_block_status_code_round_trip, ProjectStatus,
    SyncStatus, TimeBlock, TimeBlockStatus,
};
use crate::time::{
    format_rfc3339, four_digit_year_instant, parse_rfc3339, spec_format_rfc3339, spec_parse_rfc3339,
    valid_timestamp,
};
use crate::validation::{validate_progress, validate_time_range, ValidationError};

verus! {

/// Which blocks a listing asks for: those that overlap `start..end` and, when
/// given, belong to the category and the project.
#[derive(Debug, Clone, PartialEq, Eq)]
pub struct TimeBlockFilter {
    pub start: i64,
    pub end: i64,
    pub category_id: Option<String>,
    pub project_id: Option<String>,
}

/// A partial update of a time block: each field that is given replaces the
/// block's (`Some(None)` clears an optional field).
#[derive(Debug, Clone, PartialEq, Eq)]
pub struct TimeBlockPatch {
    pub title: Option<String>,
    pub description: Option<Option<String>>,
    pub start_time: Option<i64>,
    pub end_time: Option<i64>,
    pub progress: Option<i32>,
    pub project_id: Option<Option<String>>,
    pub category_id: Option<Option<String>>,
}

impl Default for TimeBlockPatch {
    /// The patch that changes nothing.
    fn default() -> (p: Self)
        ensures
            p.title is None && p.description is None && p.start_time is None && p.end_time is None
                && p.progress is None && p.project_id is None && p.category_id is None,
    {
        TimeBlockPatch {
            title: None,
            description: None,
            start_time: None,
            end_time: None,
            progress: None,
            project_id: None,
            category_id: None,
        }
    }
}

/// The new value of a field: the update when given, else the current one.
pub open spec fn updated<T>(current: T, update: Option<T>) -> T {
    match update {
        Some(v) => v,
        None => current,
    }
}

/// The block with the patch's fields in place.
pub open spec fn patched(b: TimeBlock, p: TimeBlockPatch) -> TimeBlock {
    TimeBlock {
        title: updated(b.title, p.title),
        description: updated(b.description, p.description),
        start_time: updated(b.start_time, p.start_time),
        end_time: updated(b.end_time, p.end_time),
        progress: updated(b.progress, p.progress),
        project_id: updated(b.project_id, p.project_id),
        category_id: updated(b.category_id, p.category_id),
        ..b
    }
}

/// What an update to the block gives: refused when a given progress lies
/// outside 0..=100, then when the patched block's end is not after its
/// start; otherwise the patched block, stamped at `now` and waiting to be
/// pushed to the remote calendar.
pub open spec fn spec_apply_patch(b: TimeBlock, p: TimeBlockPatch, now: i64) -> Result<
    TimeBlock,
    ValidationError,
> {
    let n = patched(b, p);
    if p.progress matches Some(g) && !(0 <= g <= 100) {
        Err(ValidationError::ProgressOutOfRange)
    } else if n.end_time <= n.start_time {
        Err(ValidationError::InvalidTimeRange)
    } else {
        Ok(TimeBlock { updated_at: now, local_updated_at: now, sync_status: SyncStatus::PendingPush, ..n })
    }
}

fn copy_opt(s: &Option<String>) -> (r: Option<String>)
    ensures
        r == *s,
{
    match s {
        Some(x) => Some(x.clone()),
        None => None,
    }
}

/// Applies a partial update to a block, as of `now`.
pub fn apply_time_block_patch(block: TimeBlock, patch: &TimeBlockPatch, now: i64) -> (r: Result<
    TimeBlock,
    ValidationError,
>)
    ensures
        r == spec_apply_patch(block, *patch, now),
{
    let mut block = block;
    if let Some(title) = &patch.title {
        block.title = title.clone();
    }
    if let Some(description) = &patch.description {
        block.description = copy_opt(description);
    }
    if let Some(start) = patch.start_time {
        block.start_time = start;
    }
    if let Some(end) = patch.end_time {
        block.end_time = end;
    }
    if let Some(progress) = patch.progress {
        validate_progress(progress)?;
        block.progress = progress;
    }
    if let Some(project_id) = &patch.project_id {
        block.project_id = copy_opt(project_id);
    }
    if let Some(category_id) = &patch.category_id {
        block.category_id = copy_opt(category_id);
    }
    validate_time_range(block.start_time, block.end_time)?;
    block.updated_at = now;
    block.local_updated_at = now;
    block.sync_status = SyncStatus::PendingPush;
    Ok(block)
}

/// An accepted update keeps the block's identity and history (its id,
/// creation time, remote link, status and all-day flag), leaves it with an
/// end after its start, stamps it with the time of the update and marks it
/// for pushing; a given title, description, time, progress, project or
/// category is what the block then holds, and every field the patch does not
/// give keeps its value.
pub proof fn lemma_update_keeps_identity(block: TimeBlock, patch: TimeBlockPatch, now: i64)
    ensures
        spec_apply_patch(block, patch, now) matches Ok(b) ==> {
            &&& b.id == block.id
            &&& b.created_at == block.created_at
            &&& b.google_event_id == block.google_event_id
            &&& b.calendar_id == block.calendar_id
            &&& b.account_id == block.account_id
            &&& b.etag == block.etag
            &&& b.status == block.status
            &&& b.is_all_day == block.is_all_day
            &&& b.start_time < b.end_time
            &&& b.updated_at == now && b.local_updated_at == now
            &&& b.sync_status == SyncStatus::PendingPush
            &&& (patch.title matches Some(t) ==> b.title == t)
            &&& (patch.start_time matches Some(t) ==> b.start_time == t)
            &&& (patch.end_time matches Some(t) ==> b.end_time == t)
            &&& (patch.progress matches Some(g) ==> b.progress == g && 0 <= g <= 100)
            &&& (patch.project_id matches Some(p) ==> b.project_id == p)
            &&& (patch.category_id matches Some(c) ==> b.category_id == c)
            &&& (patch.title is None ==> b.title == block.title)
            &&& (patch.description is None ==> b.description == block.description)
            &&& (patch.start_time is None ==> b.start_time == block.start_time)
            &&& (patch.end_time is None ==> b.end_time == block.end_time)
            &&& (patch.progress is None ==> b.progress == block.progress)
            &&& (patch.project_id is None ==> b.project_id == block.project_id)
            &&& (patch.category_id is None ==> b.category_id == block.category_id)
            &&& (patch.description matches Some(d) ==> b.description == d)
            &&& b.color == block.color
            &&& b.google_updated_at == block.google_updated_at
        },
{
}

/// A stored value that does not read back: the column it came from.
#[derive(Debug, Clone, Copy, PartialEq, Eq, Structural)]
pub struct RowError {
    pub column: usize,
}

/// The columns of a stored time block as the database holds them.
#[derive(Debug, Clone, PartialEq, Eq)]
pub struct TimeBlockRecord {
    pub id: String,
    pub title: String,
    pub description: Option<String>,
    pub start_time: String,
    pub end_time: String,
    pub category_id: Option<String>,
    pub project_id: Option<String>,
    pub google_event_id: Option<String>,
    pub calendar_id: Option<String>,
    pub account_id: Option<String>,
    pub color: Option<String>,
    pub is_all_day: i32,
    pub status: String,
    pub sync_status: String,
    pub progress: i32,
    pub local_updated_at: String,
    pub google_updated_at: Option<String>,
    pub etag: Option<String>,
    pub created_at: String,
    pub updated_at: String,
}

/// The first instant column (in the order the columns are read) whose text
/// is no RFC 3339 date and time.
pub open spec fn record_error(r: TimeBlockRecord) -> Option<usize> {
    if spec_parse_rfc3339(r.start_time@) is None {
        Some(3)
    } else if spec_parse_rfc3339(r.end_time@) is None {
        Some(4)
    } else if spec_parse_rfc3339(r.local_updated_at@) is None {
        Some(15)
    } else if r.google_updated_at matches Some(g) && spec_parse_rfc3339(g@) is None {
        Some(16)
    } else if spec_parse_rfc3339(r.created_at@) is None {
        Some(18)
    } else if spec_parse_rfc3339(r.updated_at@) is None {
        Some(19)
    } else {
        None
    }
}

/// The block that a record whose instants all parse reads back as.
pub open spec fn record_block(r: TimeBlockRecord) -> TimeBlock {
    TimeBlock {
        id: r.id,
        title: r.title,
        description: r.description,
        start_time: spec_parse_rfc3339(r.start_time@).unwrap(),
        end_time: spec_parse_rfc3339(r.end_time@).unwrap(),
        category_id: r.category_id,
        project_id: r.project_id,
        google_event_id: r.google_event_id,
        calendar_id: r.calendar_id,
        account_id: r.account_id,
        color: r.color,
        is_all_day: r.is_all_day == 1,
        status: TimeBlockStatus::from_db_text(r.status@),
        sync_status: SyncStatus::from_db_text(r.sync_status@),
        progress: r.progress,
        local_updated_at: spec_parse_rfc3339(r.local_updated_at@).unwrap(),
        google_updated_at: match r.google_updated_at {
            Some(g) => Some(spec_parse_rfc3339(g@).unwrap()),
            None => None,
        },
        etag: r.etag,
        created_at: spec_parse_rfc3339(r.created_at@).unwrap(),
        updated_at: spec_parse_rfc3339(r.updated_at@).unwrap(),
    }
}

fn parse_column(text: &String, column: usize) -> (r: Result<i64, RowError>)
    ensures
        r == (match spec_parse_rfc3339(text@) {
            Some(t) => Ok(t),
            None => Err(RowError { column }),
        }),
{
    match parse_rfc3339(text.as_str()) {
        Some(t) => Ok(t),
        None => Err(RowError { column }),
    }
}

/// Reads a stored row back as a time block: instants from RFC 3339 text,
/// statuses from their codes (unknown codes as confirmed and local), the
/// all-day flag from 1; refused at the first instant that does not parse.
pub fn time_block_from_record(r: TimeBlockRecord) -> (b: Result<TimeBlock, RowError>)
    ensures
        b == (match record_error(r) {
            Some(c) => Err(RowError { column: c }),
            None => Ok(record_block(r)),
        }),
{
    let start_time = parse_column(&r.start_time, 3)?;
    let end_time = parse_column(&r.end_time, 4)?;
    let status = TimeBlockStatus::from_db_str(r.status.as_str());
    let sync_status = SyncStatus::from_db_str(r.sync_status.as_str());
    let local_updated_at = parse_column(&r.local_updated_at, 15)?;
    let google_updated_at = match &r.google_updated_at {
        Some(g) => Some(parse_column(g, 16)?),
        None => None,
    };
    let created_at = parse_column(&r.created_at, 18)?;
    let updated_at = parse_column(&r.updated_at, 19)?;
    Ok(TimeBlock {
        id: r.id,
        title: r.title,
        description: r.description,
        start_time,
        end_time,
        category_id: r.category_id,
        project_id: r.project_id,
        google_event_id: r.google_event_id,
        calendar_id: r.calendar_id,
        account_id: r.account_id,
        color: r.color,
        is_all_day: r.is_all_day == 1,
        status,
        sync_status,
        progress: r.progress,
        local_updated_at,
        google_updated_at,
        etag: r.etag,
        created_at,
        updated_at,
    })
}

/// The six instants of a block lie in chrono's calendar.
pub open spec fn block_instants_valid(b: TimeBlock) -> bool {
    &&& valid_timestamp(b.start_time as int)
    &&& valid_timestamp(b.end_time as int)
    &&& valid_timestamp(b.local_updated_at as int)
    &&& (b.google_updated_at matches Some(g) ==> valid_timestamp(g as int))
    &&& valid_timestamp(b.created_at as int)
    &&& valid_timestamp(b.updated_at as int)
}

/// The six instants of a block fall in years written with four digits.
pub open spec fn block_instants_four_digit(b: TimeBlock) -> bool {
    &&& four_digit_year_instant(b.start_time as int)
    &&& four_digit_year_instant(b.end_time as int)
    &&& four_digit_year_instant(b.local_updated_at as int)
    &&& (b.google_updated_at matches Some(g) ==> four_digit_year_instant(g as int))
    &&& four_digit_year_instant(b.created_at as int)
    &&& four_digit_year_instant(b.updated_at as int)
}

/// `t` is the stored text of the instant `i`.
pub open spec fn stores_instant(t: String, i: i64) -> bool {
    t@ == spec_format_rfc3339(i)
}

/// `r` holds the columns that `b` is stored as: instants as RFC 3339 text,
/// statuses as their codes, the all-day flag as 1 or 0, every other field
/// as it is.
pub open spec fn is_record_of(r: TimeBlockRecord, b: TimeBlock) -> bool {
    &&& r.id == b.id
    &&& r.title == b.title
    &&& r.description == b.description
    &&& stores_instant(r.start_time, b.start_time)
    &&& stores_instant(r.end_time, b.end_time)
    &&& r.category_id == b.category_id
    &&& r.project_id == b.project_id
    &&& r.google_event_id == b.google_event_id
    &&& r.calendar_id == b.calendar_id
    &&& r.account_id == b.account_id
    &&& r.color == b.color
    &&& r.is_all_day == (if b.is_all_day {
        1i32
    } else {
        0i32
    })
    &&& r.status@ == b.status.db_text()
    &&& r.sync_status@ == b.sync_status.db_text()
    &&& r.progress == b.progress
    &&& stores_instant(r.local_updated_at, b.local_updated_at)
    &&& (match (r.google_updated_at, b.google_updated_at) {
        (Some(t), Some(g)) => stores_instant(t, g),
        (None, None) => true,
        _ => false,
    })
    &&& r.etag == b.etag
    &&& stores_instant(r.created_at, b.created_at)
    &&& stores_instant(r.updated_at, b.updated_at)
}

fn copy_text(s: &String) -> (r: String)
    ensures
        r == *s,
{
    s.clone()
}

/// The columns a block is stored as. A block whose instants fall in years
/// of four digits reads back from them as itself.
pub fn time_block_to_record(b: &TimeBlock) -> (r: TimeBlockRecord)
    requires
        block_instants_valid(*b),
    ensures
        is_record_of(r, *b),
        block_instants_four_digit(*b) ==> record_error(r) is None && record_block(r) == *b,
{
    let google_updated_at = match b.google_updated_at {
        Some(g) => Some(format_rfc3339(g)),
        None => None,
    };
    let r = TimeBlockRecord {
        id: copy_text(&b.id),
        title: copy_text(&b.title),
        description: copy_opt(&b.description),
        start_time: format_rfc3339(b.start_time),
        end_time: format_rfc3339(b.end_time),
        category_id: copy_opt(&b.category_id),
        project_id: copy_opt(&b.project_id),
        google_event_id: copy_opt(&b.google_event_id),
        calendar_id: copy_opt(&b.calendar_id),
        account_id: copy_opt(&b.account_id),
        color: copy_opt(&b.color),
        is_all_day: if b.is_all_day {
            1
        } else {
            0
        },
        status: String::from_str(b.status.as_db_str()),
        sync_status: String::from_str(b.sync_status.as_db_str()),
        progress: b.progress,
        local_updated_at: format_rfc3339(b.local_updated_at),
        google_updated_at,
        etag: copy_opt(&b.etag),
        created_at: format_rfc3339(b.created_at),
        updated_at: format_rfc3339(b.updated_at),
    };
    proof {
        lemma_time_block_status_code_round_trip(b.status);
        lemma_sync_status_code_round_trip(b.sync_status);
    }
    r
}

#[allow(dead_code)]
fn _project_status_to_db(status: ProjectStatus) -> (s: &'static str)
    ensures
        s@ == status.db_text(),
{
    status.as_db_str()
}

#[allow(dead_code)]
fn _validation_passthrough(err: ValidationError) -> (r: ValidationError)
    ensures
        r == err,
{
    err
}

} // verus!
