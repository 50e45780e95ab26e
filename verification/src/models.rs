//! The calendar's records: categories, projects, time blocks, dependencies,
//! calendar accounts and synchronisation state, with their status codes as
//! stored in the database.
use vstd::prelude::*;
use vstd::string::StringExecFns;

use crate::text::{is_blank, str_eq};
use crate::time::current_timestamp;
use crate::validation::{
    validate_date_range, validate_non_empty, validate_progress, validate_time_range,
    ValidationError,
};

verus! {

/// A lower-case hexadecimal digit.
pub open spec fn is_lower_hex(c: char) -> bool {
    ('0' <= c <= '9') || ('a' <= c <= 'f')
}

/// The text of a UUID in hyphenated lower-case form.
pub open spec fn is_uuid_text(s: Seq<char>) -> bool {
    &&& s.len() == 36
    &&& forall|i: int|
        0 <= i < 36 ==> (if i == 8 || i == 13 || i == 18 || i == 23 {
            s[i] == '-'
        } else {
            is_lower_hex(#[trigger] s[i])
        })
}

/// The text of a random (version 4, RFC 4122 variant) UUID in hyphenated
/// lower-case form: the version digit is `4` and the variant digit one of
/// `8`, `9`, `a`, `b`.
pub open spec fn is_uuid_v4_text(s: Seq<char>) -> bool {
    &&& is_uuid_text(s)
    &&& s[14] == '4'
    &&& (s[19] == '8' || s[19] == '9' || s[19] == 'a' || s[19] == 'b')
}

/// A fresh random identifier.
///
/// Calls `uuid::Uuid::new_v4` and formats it with `to_string`. The crate's
/// source masks the random bits to set the version nibble to 4 and the top
/// bits of the variant nibble to `10`, and writes the value as 32 lower-case
/// hexadecimal digits in groups of 8-4-4-4-12 joined by hyphens. Which
/// identifier comes back is chance.
#[verifier::external_body]
pub(crate) fn new_id() -> (id: String)
    ensures
        is_uuid_v4_text(id@),
{
    uuid::Uuid::new_v4().to_string()
}

/// A category that time blocks can be filed under.
#[derive(Debug, Clone, PartialEq, Eq)]
pub struct Category {
    pub id: String,
    pub name: String,
    pub color: String,
    /// Seconds since the Unix epoch.
    pub created_at: i64,
}

/// The colour a category gets when none is given.
pub open spec fn default_category_color() -> Seq<char> {
    "#3B82F6"@
}

/// The colour a project gets when none is given.
pub open spec fn default_project_color() -> Seq<char> {
    "#10B981"@
}

/// The given colour, or `default` when none is given.
pub open spec fn color_or(color: Option<String>, default: Seq<char>) -> Seq<char> {
    match color {
        Some(c) => c@,
        None => default,
    }
}

impl Category {
    /// A new category named `name`, coloured `color` or `#3B82F6`, with a
    /// fresh identifier and the current time; refused when the name is
    /// blank.
    pub fn new(name: String, color: Option<String>) -> (r: Result<Self, ValidationError>)
        ensures
            is_blank(name@) ==> r == Err::<Self, ValidationError>(
                ValidationError::Empty { field: "name" },
            ),
            !is_blank(name@) ==> (r matches Ok(c) && c.name == name && c.color@ == color_or(
                color,
                default_category_color(),
            ) && is_uuid_v4_text(c.id@) && c.created_at >= 0),
    {
        validate_non_empty(name.as_str(), "name")?;
        let color = match color {
            Some(c) => c,
            None => String::from_str("#3B82F6"),
        };
        Ok(Self { id: new_id(), name, color, created_at: current_timestamp() })
    }
}

/// A project that groups time blocks.
#[derive(Debug, Clone, PartialEq, Eq)]
pub struct Project {
    pub id: String,
    pub name: String,
    pub description: Option<String>,
    pub color: String,
    /// Day number of the first day.
    pub start_date: i64,
    /// Day number of the last day, if any.
    pub end_date: Option<i64>,
    pub status: ProjectStatus,
    pub created_at: i64,
    pub updated_at: i64,
}

impl Project {
    /// A new active project; refused when the name is blank or the end day
    /// comes before the start day (checked in that order).
    pub fn new(
        name: String,
        start_date: i64,
        end_date: Option<i64>,
        description: Option<String>,
        color: Option<String>,
    ) -> (r: Result<Self, ValidationError>)
        ensures
            is_blank(name@) ==> r == Err::<Self, ValidationError>(
                ValidationError::Empty { field: "name" },
            ),
            !is_blank(name@) && (end_date matches Some(e) && e < start_date) ==> r == Err::<
                Self,
                ValidationError,
            >(ValidationError::InvalidDateRange),
            !is_blank(name@) && !(end_date matches Some(e) && e < start_date) ==> (r matches Ok(p)
                && p.name == name && p.start_date == start_date && p.end_date == end_date
                && p.description == description && p.color@ == color_or(
                color,
                default_project_color(),
            ) && p.status == ProjectStatus::Active && is_uuid_v4_text(p.id@) && p.created_at >= 0
                && p.updated_at == p.created_at),
    {
        validate_non_empty(name.as_str(), "name")?;
        validate_date_range(start_date, end_date)?;
        let now = current_timestamp();
        let color = match color {
            Some(c) => c,
            None => String::from_str("#10B981"),
        };
        Ok(Self {
            id: new_id(),
            name,
            description,
            color,
            start_date,
            end_date,
            status: ProjectStatus::Active,
            created_at: now,
            updated_at: now,
        })
    }
}

/// The state of a project.
#[derive(Debug, Clone, Copy, PartialEq, Eq, Structural)]
pub enum ProjectStatus {
    Active,
    Completed,
    Archived,
}

impl ProjectStatus {
    /// The code stored in the database.
    pub open spec fn db_text(self) -> Seq<char> {
        match self {
            ProjectStatus::Active => "active"@,
            ProjectStatus::Completed => "completed"@,
            ProjectStatus::Archived => "archived"@,
        }
    }

    /// The status a stored code stands for; unknown codes read as active.
    pub open spec fn from_db_text(text: Seq<char>) -> ProjectStatus {
        if text == "completed"@ {
            ProjectStatus::Completed
        } else if text == "archived"@ {
            ProjectStatus::Archived
        } else {
            ProjectStatus::Active
        }
    }

    /// The code stored in the database.
    pub fn as_db_str(&self) -> (s: &'static str)
        ensures
            s@ == self.db_text(),
    {
        match self {
            ProjectStatus::Active => "active",
            ProjectStatus::Completed => "completed",
            ProjectStatus::Archived => "archived",
        }
    }

    /// The status a stored code stands for; unknown codes read as active.
    pub fn from_db_str(text: &str) -> (r: Self)
        ensures
            r == Self::from_db_text(text@),
    {
        if str_eq(text, "completed") {
            ProjectStatus::Completed
        } else if str_eq(text, "archived") {
            ProjectStatus::Archived
        } else {
            ProjectStatus::Active
        }
    }
}

/// The state of a time block.
#[derive(Debug, Clone, Copy, PartialEq, Eq, Structural)]
pub enum TimeBlockStatus {
    Confirmed,
    Tentative,
    Cancelled,
}

impl TimeBlockStatus {
    /// The code stored in the database.
    pub open spec fn db_text(self) -> Seq<char> {
        match self {
            TimeBlockStatus::Confirmed => "confirmed"@,
            TimeBlockStatus::Tentative => "tentative"@,
            TimeBlockStatus::Cancelled => "cancelled"@,
        }
    }

    /// The status a stored code stands for; unknown codes read as confirmed.
    pub open spec fn from_db_text(text: Seq<char>) -> TimeBlockStatus {
        if text == "tentative"@ {
            TimeBlockStatus::Tentative
        } else if text == "cancelled"@ {
            TimeBlockStatus::Cancelled
        } else {
            TimeBlockStatus::Confirmed
        }
    }

    /// The code stored in the database.
    pub fn as_db_str(&self) -> (s: &'static str)
        ensures
            s@ == self.db_text(),
    {
        match self {
            TimeBlockStatus::Confirmed => "confirmed",
            TimeBlockStatus::Tentative => "tentative",
            TimeBlockStatus::Cancelled => "cancelled",
        }
    }

    /// The status a stored code stands for; unknown codes read as confirmed.
    pub fn from_db_str(text: &str) -> (r: Self)
        ensures
            r == Self::from_db_text(text@),
    {
        if str_eq(text, "tentative") {
            TimeBlockStatus::Tentative
        } else if str_eq(text, "cancelled") {
            TimeBlockStatus::Cancelled
        } else {
            TimeBlockStatus::Confirmed
        }
    }
}

/// How a time block stands with the remote calendar.
#[derive(Debug, Clone, Copy, PartialEq, Eq, Structural)]
pub enum SyncStatus {
    Local,
    Synced,
    PendingPush,
    PendingDelete,
    Conflict,
}

impl SyncStatus {
    /// The code stored in the database.
    pub open spec fn db_text(self) -> Seq<char> {
        match self {
            SyncStatus::Local => "local"@,
            SyncStatus::Synced => "synced"@,
            SyncStatus::PendingPush => "pending_push"@,
            SyncStatus::PendingDelete => "pending_delete"@,
            SyncStatus::Conflict => "conflict"@,
        }
    }

    /// The status a stored code stands for; unknown codes read as local.
    pub open spec fn from_db_text(text: Seq<char>) -> SyncStatus {
        if text == "synced"@ {
            SyncStatus::Synced
        } else if text == "pending_push"@ {
            SyncStatus::PendingPush
        } else if text == "pending_delete"@ {
            SyncStatus::PendingDelete
        } else if text == "conflict"@ {
            SyncStatus::Conflict
        } else {
            SyncStatus::Local
        }
    }

    /// The code stored in the database.
    pub fn as_db_str(&self) -> (s: &'static str)
        ensures
            s@ == self.db_text(),
    {
        match self {
            SyncStatus::Local => "local",
            SyncStatus::Synced => "synced",
            SyncStatus::PendingPush => "pending_push",
            SyncStatus::PendingDelete => "pending_delete",
            SyncStatus::Conflict => "conflict",
        }
    }

    /// The status a stored code stands for; unknown codes read as local.
    pub fn from_db_str(text: &str) -> (r: Self)
        ensures
            r == Self::from_db_text(text@),
    {
        if str_eq(text, "synced") {
            SyncStatus::Synced
        } else if str_eq(text, "pending_push") {
            SyncStatus::PendingPush
        } else if str_eq(text, "pending_delete") {
            SyncStatus::PendingDelete
        } else if str_eq(text, "conflict") {
            SyncStatus::Conflict
        } else {
            SyncStatus::Local
        }
    }
}

/// Distinct texts: they differ in length or at position `i`.
proof fn lemma_texts_differ(a: Seq<char>, b: Seq<char>, i: int)
    requires
        a.len() != b.len() || (0 <= i < a.len() && i < b.len() && a[i] != b[i]),
    ensures
        a != b,
{
}

/// Reading back the code of a project status gives the status.
pub proof fn lemma_project_status_code_round_trip(status: ProjectStatus)
    ensures
        ProjectStatus::from_db_text(status.db_text()) == status,
{
    reveal_strlit("active");
    reveal_strlit("completed");
    reveal_strlit("archived");
    lemma_texts_differ("active"@, "completed"@, 0);
    lemma_texts_differ("active"@, "archived"@, 0);
    lemma_texts_differ("archived"@, "completed"@, 0);
}

/// Reading back the code of a time block status gives the status.
pub proof fn lemma_time_block_status_code_round_trip(status: TimeBlockStatus)
    ensures
        TimeBlockStatus::from_db_text(status.db_text()) == status,
{
    reveal_strlit("confirmed");
    reveal_strlit("tentative");
    reveal_strlit("cancelled");
    assert("confirmed"@[0] == 'c' && "tentative"@[0] == 't' && "cancelled"@[1] == 'a');
    lemma_texts_differ("confirmed"@, "tentative"@, 0);
    lemma_texts_differ("confirmed"@, "cancelled"@, 1);
    lemma_texts_differ("cancelled"@, "tentative"@, 0);
}

/// Reading back the code of a synchronisation status gives the status.
pub proof fn lemma_sync_status_code_round_trip(status: SyncStatus)
    ensures
        SyncStatus::from_db_text(status.db_text()) == status,
{
    reveal_strlit("local");
    reveal_strlit("synced");
    reveal_strlit("pending_push");
    reveal_strlit("pending_delete");
    reveal_strlit("conflict");
    lemma_texts_differ("local"@, "synced"@, 0);
    lemma_texts_differ("local"@, "pending_push"@, 0);
    lemma_texts_differ("local"@, "pending_delete"@, 0);
    lemma_texts_differ("local"@, "conflict"@, 0);
    lemma_texts_differ("synced"@, "pending_push"@, 0);
    lemma_texts_differ("synced"@, "pending_delete"@, 0);
    lemma_texts_differ("synced"@, "conflict"@, 0);
    lemma_texts_differ("pending_push"@, "pending_delete"@, 0);
    lemma_texts_differ("pending_push"@, "conflict"@, 0);
    lemma_texts_differ("pending_delete"@, "conflict"@, 0);
}

/// A span of time reserved for a task.
#[derive(Debug, Clone, PartialEq, Eq)]
pub struct TimeBlock {
    pub id: String,
    pub title: String,
    pub description: Option<String>,
    /// Seconds since the Unix epoch.
    pub start_time: i64,
    /// Seconds since the Unix epoch.
    pub end_time: i64,
    pub category_id: Option<String>,
    pub project_id: Option<String>,
    pub google_event_id: Option<String>,
    pub calendar_id: Option<String>,
    pub account_id: Option<String>,
    pub color: Option<String>,
    pub is_all_day: bool,
    pub status: TimeBlockStatus,
    pub sync_status: SyncStatus,
    pub progress: i32,
    pub local_updated_at: i64,
    pub google_updated_at: Option<i64>,
    pub etag: Option<String>,
    pub created_at: i64,
    pub updated_at: i64,
}

/// What `TimeBlock::new` refuses, in the order it checks.
pub open spec fn time_block_error(title: Seq<char>, start: i64, end: i64, progress: i32) -> Option<
    ValidationError,
> {
    if is_blank(title) {
        Some(ValidationError::Empty { field: "title" })
    } else if end <= start {
        Some(ValidationError::InvalidTimeRange)
    } else if !(0 <= progress <= 100) {
        Some(ValidationError::ProgressOutOfRange)
    } else {
        None
    }
}

impl TimeBlock {
    /// A new confirmed, local-only time block with a fresh identifier, stamped
    /// with the current time. Refused when the title is blank, the end is not
    /// after the start, or the progress lies outside 0..=100 (checked in that
    /// order).
    pub fn new(
        title: String,
        description: Option<String>,
        start_time: i64,
        end_time: i64,
        category_id: Option<String>,
        project_id: Option<String>,
        progress: i32,
    ) -> (r: Result<Self, ValidationError>)
        ensures
            time_block_error(title@, start_time, end_time, progress) matches Some(e) ==> r == Err::<
                Self,
                ValidationError,
            >(e),
            time_block_error(title@, start_time, end_time, progress) is None ==> (r matches Ok(b)
                && b.title == title && b.description == description && b.start_time == start_time
                && b.end_time == end_time && b.category_id == category_id && b.project_id
                == project_id && b.progress == progress && is_uuid_v4_text(b.id@)
                && b.google_event_id is None && b.calendar_id is None && b.account_id is None
                && b.color is None && !b.is_all_day && b.status == TimeBlockStatus::Confirmed
                && b.sync_status == SyncStatus::Local && b.google_updated_at is None && b.etag is None
                && b.created_at >= 0 && b.local_updated_at == b.created_at && b.updated_at
                == b.created_at),
    {
        validate_non_empty(title.as_str(), "title")?;
        validate_time_range(start_time, end_time)?;
        validate_progress(progress)?;
        let now = current_timestamp();
        Ok(Self {
            id: new_id(),
            title,
            description,
            start_time,
            end_time,
            category_id,
            project_id,
            google_event_id: None,
            calendar_id: None,
            account_id: None,
            color: None,
            is_all_day: false,
            status: TimeBlockStatus::Confirmed,
            sync_status: SyncStatus::Local,
            progress,
            local_updated_at: now,
            google_updated_at: None,
            etag: None,
            created_at: now,
            updated_at: now,
        })
    }
}

/// `time_block_id` depends on `depends_on_time_block_id`.
#[derive(Debug, Clone, PartialEq, Eq)]
pub struct TimeBlockDependency {
    pub time_block_id: String,
    pub depends_on_time_block_id: String,
}

/// A linked remote calendar account.
#[derive(Debug, Clone, PartialEq, Eq)]
pub struct CalendarAccount {
    pub id: String,
    pub email: String,
    pub access_token_encrypted: Option<String>,
    pub refresh_token_encrypted: String,
    pub token_expires_at: Option<i64>,
    pub is_active: bool,
    pub created_at: i64,
}

/// Where synchronisation with a remote calendar stands.
#[derive(Debug, Clone, PartialEq, Eq)]
pub struct SyncState {
    pub calendar_id: String,
    pub account_id: String,
    pub sync_token: Option<String>,
    pub last_synced_at: Option<i64>,
    pub full_sync_done: bool,
}

} // verus!
