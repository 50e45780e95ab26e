//! Projects and categories as stored, and the Gantt chart of a project.
use vstd::prelude::*;
use vstd::string::StringExecFns;

use crate::models::{lemma_project_status_code_round_trip, Category, Project, ProjectStatus};
use crate::repository::RowError;
use crate::services::{sort_by_start, sort_spans};
use crate::time::{
    format_date, format_rfc3339, four_digit_year_day, four_digit_year_instant, parse_date,
    parse_rfc3339, spec_format_date, spec_format_rfc3339, spec_parse_date, spec_parse_rfc3339,
    valid_day, valid_timestamp,
};

verus! {

/// What a new project is made from.
#[derive(Debug, Clone, PartialEq, Eq)]
pub struct CreateProjectInput {
    pub name: String,
    /// Day number of the first day.
    pub start_date: i64,
    /// Day number of the last day, if any.
    pub end_date: Option<i64>,
    pub description: Option<String>,
    pub color: Option<String>,
}

/// The format in which days are stored.
pub open spec fn date_format() -> Seq<char> {
    "%Y-%m-%d"@
}

/// The columns of a stored project as the database holds them.
#[derive(Debug, Clone, PartialEq, Eq)]
pub struct ProjectRecord {
    pub id: String,
    pub name: String,
    pub description: Option<String>,
    pub color: String,
    pub start_date: String,
    pub end_date: Option<String>,
    pub status: String,
    pub created_at: String,
    pub updated_at: String,
}

/// The first column (in the order the columns are read) that does not read
/// back.
pub open spec fn project_record_error(r: ProjectRecord) -> Option<usize> {
    if spec_parse_date(r.start_date@, date_format()) is None {
        Some(4)
    } else if r.end_date matches Some(e) && spec_parse_date(e@, date_format()) is None {
        Some(5)
    } else if spec_parse_rfc3339(r.created_at@) is None {
        Some(7)
    } else if spec_parse_rfc3339(r.updated_at@) is None {
        Some(8)
    } else {
        None
    }
}

/// The project that a record whose values all read back stands for.
pub open spec fn record_project(r: ProjectRecord) -> Project {
    Project {
        id: r.id,
        name: r.name,
        description: r.description,
        color: r.color,
        start_date: spec_parse_date(r.start_date@, date_format()).unwrap(),
        end_date: match r.end_date {
            Some(e) => Some(spec_parse_date(e@, date_format()).unwrap()),
            None => None,
        },
        status: ProjectStatus::from_db_text(r.status@),
        created_at: spec_parse_rfc3339(r.created_at@).unwrap(),
        updated_at: spec_parse_rfc3339(r.updated_at@).unwrap(),
    }
}

fn date_column(text: &String, column: usize) -> (r: Result<i64, RowError>)
    ensures
        r == (match spec_parse_date(text@, date_format()) {
            Some(d) => Ok(d),
            None => Err(RowError { column }),
        }),
{
    match parse_date(text.as_str(), "%Y-%m-%d") {
        Some(d) => Ok(d),
        None => Err(RowError { column }),
    }
}

fn instant_column(text: &String, column: usize) -> (r: Result<i64, RowError>)
    ensures
        r == (match spec_parse_rfc3339(text@) {
            Some(t) => Ok(t),
            None => Err(RowError { column }),
        }),
{
    match parse_rfc3339(text.as_str()) {
        Some(t) => Ok(t),
        None => Err(RowError { column }),
    }
}

/// Reads a stored row back as a project: days in `%Y-%m-%d`, instants in
/// RFC 3339, the status from its code (unknown codes as active); refused at
/// the first value that does not read back.
pub fn project_from_record(r: ProjectRecord) -> (p: Result<Project, RowError>)
    ensures
        p == (match project_record_error(r) {
            Some(c) => Err(RowError { column: c }),
            None => Ok(record_project(r)),
        }),
{
    let status = ProjectStatus::from_db_str(r.status.as_str());
    let start_date = date_column(&r.start_date, 4)?;
    let end_date = match &r.end_date {
        Some(e) => Some(date_column(e, 5)?),
        None => None,
    };
    let created_at = instant_column(&r.created_at, 7)?;
    let updated_at = instant_column(&r.updated_at, 8)?;
    Ok(Project {
        id: r.id,
        name: r.name,
        description: r.description,
        color: r.color,
        start_date,
        end_date,
        status,
        created_at,
        updated_at,
    })
}

/// `r` holds the columns that `p` is stored as: days as `YYYY-MM-DD`,
/// instants as RFC 3339 text, the status as its code, every other field as
/// it is.
pub open spec fn is_project_record_of(r: ProjectRecord, p: Project) -> bool {
    &&& r.id == p.id
    &&& r.name == p.name
    &&& r.description == p.description
    &&& r.color == p.color
    &&& r.start_date@ == spec_format_date(p.start_date)
    &&& (match (r.end_date, p.end_date) {
        (Some(t), Some(d)) => t@ == spec_format_date(d),
        (None, None) => true,
        _ => false,
    })
    &&& r.status@ == p.status.db_text()
    &&& r.created_at@ == spec_format_rfc3339(p.created_at)
    &&& r.updated_at@ == spec_format_rfc3339(p.updated_at)
}

/// The days and instants of a project lie in chrono's calendar.
pub open spec fn project_values_valid(p: Project) -> bool {
    &&& valid_day(p.start_date as int)
    &&& (p.end_date matches Some(e) ==> valid_day(e as int))
    &&& valid_timestamp(p.created_at as int)
    &&& valid_timestamp(p.updated_at as int)
}

/// The days and instants of a project fall in years written with four
/// digits.
pub open spec fn project_values_four_digit(p: Project) -> bool {
    &&& four_digit_year_day(p.start_date as int)
    &&& (p.end_date matches Some(e) ==> four_digit_year_day(e as int))
    &&& four_digit_year_instant(p.created_at as int)
    &&& four_digit_year_instant(p.updated_at as int)
}

fn copy_opt_text(s: &Option<String>) -> (r: Option<String>)
    ensures
        r == *s,
{
    match s {
        Some(x) => Some(x.clone()),
        None => None,
    }
}

/// The columns a project is stored as. A project whose days and instants
/// fall in years of four digits reads back from them as itself.
pub fn project_to_record(p: &Project) -> (r: ProjectRecord)
    requires
        project_values_valid(*p),
    ensures
        is_project_record_of(r, *p),
        project_values_four_digit(*p) ==> project_record_error(r) is None && record_project(r)
            == *p,
{
    let end_date = match p.end_date {
        Some(e) => Some(format_date(e)),
        None => None,
    };
    let r = ProjectRecord {
        id: p.id.clone(),
        name: p.name.clone(),
        description: copy_opt_text(&p.description),
        color: p.color.clone(),
        start_date: format_date(p.start_date),
        end_date,
        status: String::from_str(p.status.as_db_str()),
        created_at: format_rfc3339(p.created_at),
        updated_at: format_rfc3339(p.updated_at),
    };
    proof {
        lemma_project_status_code_round_trip(p.status);
    }
    r
}

/// The columns of a stored category as the database holds them.
#[derive(Debug, Clone, PartialEq, Eq)]
pub struct CategoryRecord {
    pub id: String,
    pub name: String,
    pub color: String,
    pub created_at: String,
}

/// Reads a stored row back as a category; refused when the creation instant
/// is no RFC 3339 date and time.
pub fn category_from_record(r: CategoryRecord) -> (c: Result<Category, RowError>)
    ensures
        c == (match spec_parse_rfc3339(r.created_at@) {
            Some(t) => Ok(Category { id: r.id, name: r.name, color: r.color, created_at: t }),
            None => Err(RowError { column: 3 }),
        }),
{
    let created_at = instant_column(&r.created_at, 3)?;
    Ok(Category { id: r.id, name: r.name, color: r.color, created_at })
}

// ---------------------------------------------------------------------------
// Gantt chart.
/// A bar of the Gantt chart: a time block of the project and the blocks it
/// depends on.
#[derive(Debug, Clone, PartialEq, Eq)]
pub struct GanttTask {
    pub id: String,
    pub title: String,
    pub start: i64,
    pub end: i64,
    pub progress: i32,
    pub depends_on: Vec<String>,
}

/// A row of the project's blocks joined with their dependencies: one row per
/// dependency, or one row without when a block has none.
#[derive(Debug, Clone, PartialEq, Eq)]
pub struct GanttRow {
    pub id: String,
    pub title: String,
    pub start: String,
    pub end: String,
    pub progress: i32,
    pub depends_on: Option<String>,
}

/// The values of a bar: id, title, start, end, progress, dependencies.
pub type GanttEntry = (Seq<char>, Seq<char>, i64, i64, i32, Seq<Seq<char>>);

pub open spec fn string_views(v: Seq<String>) -> Seq<Seq<char>> {
    v.map_values(|s: String| s@)
}

pub open spec fn gantt_view(t: GanttTask) -> GanttEntry {
    (t.id@, t.title@, t.start, t.end, t.progress, string_views(t.depends_on@))
}

/// The position of the bar with this id, or -1.
pub open spec fn bar_index(bars: Seq<GanttEntry>, id: Seq<char>) -> int
    decreases bars.len(),
{
    if bars.len() == 0 {
        -1
    } else if bars.last().0 == id {
        bars.len() - 1
    } else {
        bar_index(bars.drop_last(), id)
    }
}

pub open spec fn with_dependency(bar: GanttEntry, dep: Option<String>) -> GanttEntry {
    match dep {
        Some(d) => (bar.0, bar.1, bar.2, bar.3, bar.4, bar.5.push(d@)),
        None => bar,
    }
}

/// The bars that the rows make, in the order their blocks first appear: a
/// block's first row gives its title, times and progress; each row's
/// dependency is added to its block's bar.
pub open spec fn group_rows(rows: Seq<GanttRow>) -> Seq<GanttEntry>
    decreases rows.len(),
{
    if rows.len() == 0 {
        Seq::empty()
    } else {
        let bars = group_rows(rows.drop_last());
        let r = rows.last();
        let k = bar_index(bars, r.id@);
        if k >= 0 {
            bars.update(k, with_dependency(bars[k], r.depends_on))
        } else {
            bars.push(
                with_dependency(
                    (
                        r.id@,
                        r.title@,
                        spec_parse_rfc3339(r.start@).unwrap(),
                        spec_parse_rfc3339(r.end@).unwrap(),
                        r.progress,
                        Seq::empty(),
                    ),
                    r.depends_on,
                ),
            )
        }
    }
}

/// The first row whose start, then end, is no RFC 3339 date and time: its
/// column.
pub open spec fn rows_error(rows: Seq<GanttRow>) -> Option<usize>
    decreases rows.len(),
{
    if rows.len() == 0 {
        None
    } else if rows_error(rows.drop_last()) is Some {
        rows_error(rows.drop_last())
    } else if spec_parse_rfc3339(rows.last().start@) is None {
        Some(2)
    } else if spec_parse_rfc3339(rows.last().end@) is None {
        Some(3)
    } else {
        None
    }
}

/// The bars ordered by start, bars that start together in the order their
/// blocks first appear.
pub open spec fn order_bars(bars: Seq<GanttEntry>) -> Seq<GanttEntry> {
    let keys = Seq::new(bars.len(), |i: int| (bars[i].2, i as i64));
    sort_by_start(keys).map_values(|p: (i64, i64)| bars[p.1 as int])
}

fn copy_strings(v: &Vec<String>) -> (r: Vec<String>)
    ensures
        r@ == v@,
{
    let mut out: Vec<String> = Vec::new();
    let n = v.len();
    let mut i: usize = 0;
    while i < n
        invariant
            n == v@.len(),
            i <= n,
            out@ == v@.take(i as int),
        decreases n - i,
    {
        out.push(v[i].clone());
        proof {
            assert(v@.take(i + 1) =~= v@.take(i as int).push(v@[i as int]));
        }
        i = i + 1;
    }
    proof {
        assert(v@.take(n as int) =~= v@);
    }
    out
}

proof fn lemma_bar_index(bars: Seq<GanttEntry>, id: Seq<char>)
    ensures
        -1 <= bar_index(bars, id) < bars.len(),
        bar_index(bars, id) >= 0 ==> bars[bar_index(bars, id)].0 == id,
        bar_index(bars, id) < 0 ==> forall|k: int| 0 <= k < bars.len() ==> #[trigger] bars[k].0 != id,
    decreases bars.len(),
{
    if bars.len() > 0 {
        lemma_bar_index(bars.drop_last(), id);
        if bar_index(bars, id) < 0 {
            assert forall|k: int| 0 <= k < bars.len() implies #[trigger] bars[k].0 != id by {
                if k < bars.len() - 1 {
                    assert(bars.drop_last()[k] == bars[k]);
                }
            }
        }
    }
}

/// Whether the bars have no id twice.
pub open spec fn distinct_ids(bars: Seq<GanttEntry>) -> bool {
    forall|i: int, j: int| 0 <= i < j < bars.len() ==> #[trigger] bars[i].0 != #[trigger] bars[j].0
}

proof fn lemma_bar_index_unique(bars: Seq<GanttEntry>, id: Seq<char>, k: int)
    requires
        distinct_ids(bars),
        0 <= k < bars.len(),
        bars[k].0 == id,
    ensures
        bar_index(bars, id) == k,
    decreases bars.len(),
{
    if k < bars.len() - 1 {
        assert(bars.last().0 != id) by {
            assert(bars[k].0 != bars[bars.len() - 1].0);
        }
        lemma_bar_index_unique(bars.drop_last(), id, k);
    }
}

proof fn lemma_rows_error_extends(rows: Seq<GanttRow>, i: int, j: int)
    requires
        0 <= i <= j <= rows.len(),
        rows_error(rows.take(i)) is Some,
    ensures
        rows_error(rows.take(j)) == rows_error(rows.take(i)),
    decreases j - i,
{
    if j > i {
        lemma_rows_error_extends(rows, i, j - 1);
        assert(rows.take(j).drop_last() =~= rows.take(j - 1));
    }
}

proof fn lemma_group_len(rows: Seq<GanttRow>)
    ensures
        group_rows(rows).len() <= rows.len(),
    decreases rows.len(),
{
    if rows.len() > 0 {
        lemma_group_len(rows.drop_last());
        lemma_bar_index(group_rows(rows.drop_last()), rows.last().id@);
    }
}

/// `i` is the first row of its block.
pub open spec fn first_row_of_block(rows: Seq<GanttRow>, i: int) -> bool {
    &&& 0 <= i < rows.len()
    &&& forall|j: int| 0 <= j < i ==> (#[trigger] rows[j]).id@ != rows[i].id@
}

/// The bar carries the values of the first row of its block.
pub open spec fn bar_has_first_row(rows: Seq<GanttRow>, bar: GanttEntry) -> bool {
    exists|i: int| first_row_of_block(rows, i) && #[trigger] bar_of_row(bar, rows[i])
}

/// The bar carries the values of the row: its id, title, times and progress.
pub open spec fn bar_of_row(bar: GanttEntry, row: GanttRow) -> bool {
    &&& bar.0 == row.id@
    &&& bar.1 == row.title@
    &&& bar.2 == spec_parse_rfc3339(row.start@).unwrap()
    &&& bar.3 == spec_parse_rfc3339(row.end@).unwrap()
    &&& bar.4 == row.progress
}

/// The position of the first row with this id, or -1.
pub open spec fn first_index(rows: Seq<GanttRow>, id: Seq<char>) -> int
    decreases rows.len(),
{
    if rows.len() == 0 {
        -1
    } else if first_index(rows.drop_last(), id) >= 0 {
        first_index(rows.drop_last(), id)
    } else if rows.last().id@ == id {
        rows.len() - 1
    } else {
        -1
    }
}

proof fn lemma_first_index(rows: Seq<GanttRow>, id: Seq<char>)
    ensures
        first_index(rows, id) >= 0 ==> first_row_of_block(rows, first_index(rows, id))
            && rows[first_index(rows, id)].id@ == id,
        first_index(rows, id) < 0 ==> forall|j: int| 0 <= j < rows.len() ==> (#[trigger] rows[j]).id@ != id,
    decreases rows.len(),
{
    if rows.len() > 0 {
        let rest = rows.drop_last();
        lemma_first_index(rest, id);
        let f = first_index(rest, id);
        if f >= 0 {
            assert(rows[f] == rest[f]);
            assert forall|j: int| 0 <= j < f implies (#[trigger] rows[j]).id@ != rows[f].id@ by {
                assert(rows[j] == rest[j]);
            }
        } else {
            assert forall|j: int| 0 <= j < rows.len() - 1 implies (#[trigger] rows[j]).id@ != id by {
                assert(rows[j] == rest[j]);
            }
        }
    }
}

proof fn lemma_first_index_extends(rows: Seq<GanttRow>, id: Seq<char>)
    requires
        rows.len() > 0,
        first_index(rows.drop_last(), id) >= 0,
    ensures
        first_index(rows, id) == first_index(rows.drop_last(), id),
{
}

/// The bars of the rows grouped so far: each carries the values of the
/// first row of its block, and every row's block has a bar.
#[verifier::opaque]
spec fn grouped_well(g: Seq<GanttEntry>, rows: Seq<GanttRow>) -> bool {
    &&& forall|k: int|
        0 <= k < g.len() ==> 0 <= first_index(rows, (#[trigger] g[k]).0) && bar_of_row(
            g[k],
            rows[first_index(rows, g[k].0)],
        )
    &&& forall|j: int| 0 <= j < rows.len() ==> bar_index(g, (#[trigger] rows[j]).id@) >= 0
    &&& forall|j: int|
        0 <= j < rows.len() ==> ((#[trigger] rows[j]).depends_on matches Some(d) ==> g[bar_index(
            g,
            rows[j].id@,
        )].5.contains(d@))
}

proof fn lemma_bar_index_same_ids(g: Seq<GanttEntry>, g1: Seq<GanttEntry>, id: Seq<char>)
    requires
        g.len() == g1.len(),
        forall|k: int| 0 <= k < g.len() ==> (#[trigger] g[k]).0 == g1[k].0,
    ensures
        bar_index(g, id) == bar_index(g1, id),
    decreases g.len(),
{
    if g.len() > 0 {
        assert(g.last().0 == g1.last().0);
        assert forall|k: int| 0 <= k < g.len() - 1 implies (#[trigger] g.drop_last()[k]).0
            == g1.drop_last()[k].0 by {
            assert(g.drop_last()[k] == g[k]);
            assert(g1.drop_last()[k] == g1[k]);
        }
        lemma_bar_index_same_ids(g.drop_last(), g1.drop_last(), id);
    }
}

proof fn lemma_group_rows_from_rows(rows: Seq<GanttRow>)
    ensures
        grouped_well(group_rows(rows), rows),
    decreases rows.len(),
{
    reveal(grouped_well);
    if rows.len() > 0 {
        let rest = rows.drop_last();
        lemma_group_rows_from_rows(rest);
        let g = group_rows(rest);
        let g1 = group_rows(rows);
        let r = rows.last();
        let n = rows.len() - 1;
        assert(rows[n] == r);
        lemma_bar_index(g, r.id@);
        let k0 = bar_index(g, r.id@);
        if k0 >= 0 {
            assert(g1 == g.update(k0, with_dependency(g[k0], r.depends_on)));
            assert forall|k: int| 0 <= k < g1.len() implies 0 <= first_index(rows, (#[trigger] g1[k]).0)
                && bar_of_row(g1[k], rows[first_index(rows, g1[k].0)]) by {
                assert(g1[k].0 == g[k].0);
                lemma_first_index_extends(rows, g[k].0);
                lemma_first_index(rest, g[k].0);
                let f = first_index(rest, g[k].0);
                assert(rows[f] == rest[f]);
            }
            assert forall|j: int| 0 <= j < rows.len() implies bar_index(g1, (#[trigger] rows[j]).id@)
                >= 0 by {
                let id = rows[j].id@;
                if j < n {
                    assert(rows[j] == rest[j]);
                    assert(bar_index(g, rest[j].id@) >= 0);
                } 
                lemma_bar_index(g, id);
                let kk = bar_index(g, id);
                assert(g1[kk].0 == id);
                lemma_bar_index(g1, id);
            }
            assert forall|k: int| 0 <= k < g.len() implies (#[trigger] g[k]).0 == g1[k].0 by {}
            assert forall|j: int| 0 <= j < rows.len() implies ((#[trigger] rows[j]).depends_on matches Some(
                d,
            ) ==> g1[bar_index(g1, rows[j].id@)].5.contains(d@)) by {
                let id = rows[j].id@;
                lemma_bar_index_same_ids(g, g1, id);
                if rows[j].depends_on is Some {
                    let d = rows[j].depends_on->0;
                    if j < n {
                        assert(rows[j] == rest[j]);
                        lemma_bar_index(g, id);
                        let kk = bar_index(g, id);
                        assert(g[kk].5.contains(d@));
                        let x = choose|x: int| 0 <= x < g[kk].5.len() && g[kk].5[x] == d@;
                        if kk == k0 {
                            assert(g1[kk] == with_dependency(g[k0], r.depends_on));
                            if r.depends_on is Some {
                                assert(g1[kk].5 == g[kk].5.push(r.depends_on->0@));
                            } else {
                                assert(g1[kk].5 == g[kk].5);
                            }
                            assert(g1[kk].5[x] == d@);
                        } else {
                            assert(g1[kk] == g[kk]);
                        }
                        assert(g1[kk].5.contains(d@));
                    } else {
                        assert(g1[k0].5 == g[k0].5.push(d@));
                        assert(g1[k0].5[g[k0].5.len() as int] == d@);
                    }
                }
            }
        } else {
            let nb = with_dependency(
                (
                    r.id@,
                    r.title@,
                    spec_parse_rfc3339(r.start@).unwrap(),
                    spec_parse_rfc3339(r.end@).unwrap(),
                    r.progress,
                    Seq::empty(),
                ),
                r.depends_on,
            );
            assert(g1 == g.push(nb));
            lemma_first_index(rest, r.id@);
            if first_index(rest, r.id@) >= 0 {
                let f = first_index(rest, r.id@);
                assert(bar_index(g, rest[f].id@) >= 0);
                assert(false);
            }
            assert(first_index(rows, r.id@) == n);
            assert forall|k: int| 0 <= k < g1.len() implies 0 <= first_index(rows, (#[trigger] g1[k]).0)
                && bar_of_row(g1[k], rows[first_index(rows, g1[k].0)]) by {
                if k < g.len() {
                    assert(g1[k] == g[k]);
                    lemma_first_index_extends(rows, g[k].0);
                    lemma_first_index(rest, g[k].0);
                    let f = first_index(rest, g[k].0);
                    assert(rows[f] == rest[f]);
                }
            }
            assert forall|j: int| 0 <= j < rows.len() implies bar_index(g1, (#[trigger] rows[j]).id@)
                >= 0 by {
                let id = rows[j].id@;
                lemma_bar_index(g1, id);
                if j < n {
                    assert(rows[j] == rest[j]);
                    assert(bar_index(g, rest[j].id@) >= 0);
                    lemma_bar_index(g, id);
                    let kk = bar_index(g, id);
                    assert(g1[kk] == g[kk]);
                } else {
                    assert(g1[g.len() as int].0 == id);
                }
            }
            assert forall|j: int| 0 <= j < rows.len() implies ((#[trigger] rows[j]).depends_on matches Some(
                d,
            ) ==> g1[bar_index(g1, rows[j].id@)].5.contains(d@)) by {
                let id = rows[j].id@;
                if rows[j].depends_on is Some {
                    let d = rows[j].depends_on->0;
                    if j < n {
                        assert(rows[j] == rest[j]);
                        lemma_bar_index(g, id);
                        let kk = bar_index(g, id);
                        assert(g[kk].0 == id);
                        assert(id != r.id@);
                        assert(g1.drop_last() == g);
                        assert(bar_index(g1, id) == kk);
                        assert(g1[kk] == g[kk]);
                    } else {
                        assert(bar_index(g1, id) == g.len());
                        assert(nb.5 == Seq::<Seq<char>>::empty().push(d@));
                        assert(nb.5[0] == d@);
                    }
                }
            }
        }
    }
}

proof fn lemma_bar_from_first_row(rows: Seq<GanttRow>, g: Seq<GanttEntry>, q: int, bar: GanttEntry)
    requires
        grouped_well(g, rows),
        0 <= q < g.len(),
        bar == g[q],
    ensures
        bar_has_first_row(rows, bar),
{
    reveal(grouped_well);
    let _ = g[q];
    let i = first_index(rows, g[q].0);
    lemma_first_index(rows, g[q].0);
    assert(bar_of_row(bar, rows[i]));
}

proof fn lemma_row_has_bar(rows: Seq<GanttRow>, g: Seq<GanttEntry>, j: int)
    requires
        grouped_well(g, rows),
        0 <= j < rows.len(),
    ensures
        0 <= bar_index(g, rows[j].id@) < g.len(),
        g[bar_index(g, rows[j].id@)].0 == rows[j].id@,
        rows[j].depends_on matches Some(d) ==> g[bar_index(g, rows[j].id@)].5.contains(d@),
{
    reveal(grouped_well);
    let _ = rows[j];
    lemma_bar_index(g, rows[j].id@);
}

/// Each bar of the Gantt chart is a block of the rows: it carries the id,
/// title, times and progress of the block's first row.
pub proof fn lemma_gantt_bars_from_rows(rows: Seq<GanttRow>)
    requires
        rows.len() <= i64::MAX,
    ensures
        forall|k: int|
            0 <= k < order_bars(group_rows(rows)).len() ==> bar_has_first_row(
                rows,
                #[trigger] order_bars(group_rows(rows))[k],
            ),
{
    lemma_group_rows_from_rows(rows);
    lemma_group_len(rows);
    let g = group_rows(rows);
    assert forall|k: int| 0 <= k < order_bars(g).len() implies bar_has_first_row(
        rows,
        #[trigger] order_bars(g)[k],
    ) by {
        let q = lemma_order_bars_index(g, k);
        lemma_bar_from_first_row(rows, g, q, order_bars(g)[k]);
    }
}

/// Every block of the rows has a bar in the Gantt chart, and the bar lists
/// the dependency of each of the block's rows.
pub proof fn lemma_gantt_rows_have_bars(rows: Seq<GanttRow>)
    requires
        rows.len() <= i64::MAX,
    ensures
        forall|j: int|
            0 <= j < rows.len() ==> exists|k: int|
                0 <= k < order_bars(group_rows(rows)).len() && (#[trigger] order_bars(
                    group_rows(rows),
                )[k]).0 == (#[trigger] rows[j]).id@ && (rows[j].depends_on matches Some(d)
                    ==> order_bars(group_rows(rows))[k].5.contains(d@)),
{
    lemma_group_rows_from_rows(rows);
    lemma_group_len(rows);
    let g = group_rows(rows);
    assert forall|j: int| 0 <= j < rows.len() implies exists|k: int|
        0 <= k < order_bars(g).len() && (#[trigger] order_bars(g)[k]).0
            == (#[trigger] rows[j]).id@ && (rows[j].depends_on matches Some(d)
            ==> order_bars(g)[k].5.contains(d@)) by {
        lemma_row_has_bar(rows, g, j);
        let q = bar_index(g, rows[j].id@);
        let k = lemma_order_bars_find(g, q);
    }
}

/// The bars of the Gantt chart come in order of their start.
pub proof fn lemma_gantt_bars_by_start(rows: Seq<GanttRow>)
    requires
        rows.len() <= i64::MAX,
    ensures
        forall|i: int, j: int|
            0 <= i <= j < order_bars(group_rows(rows)).len() ==> (#[trigger] order_bars(
                group_rows(rows),
            )[i]).2 <= (#[trigger] order_bars(group_rows(rows))[j]).2,
{
    lemma_group_len(rows);
    let g = group_rows(rows);
    let keys = Seq::new(g.len(), |q: int| (g[q].2, q as i64));
    let order = sort_by_start(keys);
    crate::services::lemma_sort_elements(keys);
    crate::services::lemma_sort_sorted(keys);
    assert forall|k: int| 0 <= k < order.len() implies 0 <= (#[trigger] order[k]).1 < g.len()
        && order[k].0 == g[order[k].1 as int].2 by {
        assert(order.contains(order[k]));
        assert(keys.contains(order[k]));
    }
    assert forall|i: int, j: int| 0 <= i <= j < order_bars(g).len() implies (
    #[trigger] order_bars(g)[i]).2 <= (#[trigger] order_bars(g)[j]).2 by {
        assert(order[i].0 <= order[j].0);
        let _ = order[i];
        let _ = order[j];
    }
}

proof fn lemma_order_bars_index(g: Seq<GanttEntry>, k: int) -> (q: int)
    requires
        g.len() <= i64::MAX,
        0 <= k < order_bars(g).len(),
    ensures
        0 <= q < g.len(),
        order_bars(g)[k] == g[q],
{
    let keys = Seq::new(g.len(), |q: int| (g[q].2, q as i64));
    let order = sort_by_start(keys);
    crate::services::lemma_sort_elements(keys);
    assert(order.contains(order[k]));
    assert(keys.contains(order[k]));
    order[k].1 as int
}

proof fn lemma_order_bars_find(g: Seq<GanttEntry>, q: int) -> (k: int)
    requires
        g.len() <= i64::MAX,
        0 <= q < g.len(),
    ensures
        0 <= k < order_bars(g).len(),
        order_bars(g)[k] == g[q],
{
    let keys = Seq::new(g.len(), |q: int| (g[q].2, q as i64));
    let order = sort_by_start(keys);
    crate::services::lemma_sort_elements(keys);
    assert(keys[q] == (g[q].2, q as i64));
    assert(keys.contains(keys[q]));
    assert(order.contains(keys[q]));
    choose|k: int| 0 <= k < order.len() && order[k] == keys[q]
}

/// The position of the first bar with this id.
fn find_head(heads: &Vec<GanttTask>, id: &String) -> (r: Option<usize>)
    ensures
        r matches Some(k) ==> k < heads@.len() && heads@[k as int].id@ == id@,
        r is None ==> forall|q: int| 0 <= q < heads@.len() ==> (#[trigger] heads@[q]).id@ != id@,
{
    let len = heads.len();
    let mut k: usize = 0;
    while k < len
        invariant
            len == heads@.len(),
            k <= len,
            forall|q: int| 0 <= q < k ==> (#[trigger] heads@[q]).id@ != id@,
        decreases len - k,
    {
        if heads[k].id == *id {
            return Some(k);
        }
        k = k + 1;
    }
    None
}

/// The bars of the Gantt chart: the rows grouped by block, each bar with the
/// block's dependencies in row order, ordered by start (bars that start
/// together in the order their blocks first appear); refused at the first
/// row whose start or end does not read back.
pub fn build_gantt_tasks(rows: &Vec<GanttRow>) -> (r: Result<Vec<GanttTask>, RowError>)
    requires
        rows@.len() <= i64::MAX,
    ensures
        r matches Err(e) ==> rows_error(rows@) == Some(e.column),
        r matches Ok(tasks) ==> (rows_error(rows@) is None && tasks@.map_values(
            |t: GanttTask| gantt_view(t),
        ) == order_bars(group_rows(rows@))),
        rows_error(rows@) is None ==> r is Ok,
{
    let mut heads: Vec<GanttTask> = Vec::new();
    let mut deps: Vec<Vec<String>> = Vec::new();
    let n = rows.len();
    let mut i: usize = 0;
    while i < n
        invariant
            n == rows@.len(),
            i <= n,
            rows_error(rows@.take(i as int)) is None,
            heads@.len() == deps@.len(),
            heads@.len() == group_rows(rows@.take(i as int)).len(),
            distinct_ids(group_rows(rows@.take(i as int))),
            forall|k: int|
                0 <= k < heads@.len() ==> {
                    let g = #[trigger] group_rows(rows@.take(i as int))[k];
                    &&& heads@[k].id@ == g.0
                    &&& heads@[k].title@ == g.1
                    &&& heads@[k].start == g.2
                    &&& heads@[k].end == g.3
                    &&& heads@[k].progress == g.4
                    &&& string_views(deps@[k]@) == g.5
                },
        decreases n - i,
    {
        let row = &rows[i];
        let ghost prev = rows@.take(i as int);
        let ghost bars = group_rows(prev);
        proof {
            assert(rows@.take(i + 1).drop_last() =~= prev);
            assert(rows@.take(i + 1).last() == *row);
        }
        let start = match parse_rfc3339(row.start.as_str()) {
            Some(t) => t,
            None => {
                proof {
                    lemma_rows_error_extends(rows@, i + 1, n as int);
                    assert(rows@.take(n as int) =~= rows@);
                }
                return Err(RowError { column: 2 });
            },
        };
        let end = match parse_rfc3339(row.end.as_str()) {
            Some(t) => t,
            None => {
                proof {
                    lemma_rows_error_extends(rows@, i + 1, n as int);
                    assert(rows@.take(n as int) =~= rows@);
                }
                return Err(RowError { column: 3 });
            },
        };
        let len = heads.len();
        let hit = find_head(&heads, &row.id);
        proof {
            lemma_bar_index(bars, row.id@);
        }
        let ghost new_bars = group_rows(rows@.take(i + 1));
        if let Some(k) = hit {
            proof {
                assert(bars[k as int].0 == row.id@);
                lemma_bar_index_unique(bars, row.id@, k as int);
            }
            if let Some(d) = &row.depends_on {
                let ghost before = deps@[k as int]@;
                deps[k].push(d.clone());
                proof {
                    assert(string_views(deps@[k as int]@) =~= string_views(before).push(d@));
                }
            }
            proof {
                assert forall|q: int| 0 <= q < heads@.len() implies {
                    let g = #[trigger] new_bars[q];
                    &&& heads@[q].id@ == g.0
                    &&& heads@[q].title@ == g.1
                    &&& heads@[q].start == g.2
                    &&& heads@[q].end == g.3
                    &&& heads@[q].progress == g.4
                    &&& string_views(deps@[q]@) == g.5
                } by {
                    let _ = bars[q];
                }
                assert forall|a: int, b: int| 0 <= a < b < new_bars.len() implies #[trigger] new_bars[a].0
                    != #[trigger] new_bars[b].0 by {
                    assert(bars[a].0 != bars[b].0);
                }
            }
        } else {
            proof {
                assert forall|q: int| 0 <= q < bars.len() implies #[trigger] bars[q].0 != row.id@ by {
                    let _ = bars[q];
                    assert(heads@[q].id@ != row.id@);
                }
                assert(bar_index(bars, row.id@) < 0);
            }
            let mut ds: Vec<String> = Vec::new();
            if let Some(d) = &row.depends_on {
                ds.push(d.clone());
            }
            heads.push(
                GanttTask {
                    id: row.id.clone(),
                    title: row.title.clone(),
                    start,
                    end,
                    progress: row.progress,
                    depends_on: Vec::new(),
                },
            );
            deps.push(ds);
            proof {
                assert(string_views(deps@[len as int]@) =~= (match row.depends_on {
                    Some(d) => seq![d@],
                    None => Seq::<Seq<char>>::empty(),
                }));
                assert(Seq::<Seq<char>>::empty().push(
                    row.depends_on.unwrap()@,
                ) =~= seq![row.depends_on.unwrap()@]);
                assert forall|q: int| 0 <= q < heads@.len() implies {
                    let g = #[trigger] new_bars[q];
                    &&& heads@[q].id@ == g.0
                    &&& heads@[q].title@ == g.1
                    &&& heads@[q].start == g.2
                    &&& heads@[q].end == g.3
                    &&& heads@[q].progress == g.4
                    &&& string_views(deps@[q]@) == g.5
                } by {
                    if q < len {
                        let _ = bars[q];
                    }
                }
                assert forall|a: int, b: int| 0 <= a < b < new_bars.len() implies #[trigger] new_bars[a].0
                    != #[trigger] new_bars[b].0 by {
                    if b < len {
                        assert(bars[a].0 != bars[b].0);
                    }
                }
            }
        }
        i = i + 1;
    }
    proof {
        assert(rows@.take(n as int) =~= rows@);
    }
    let ghost bars = group_rows(rows@);
    proof {
        lemma_group_len(rows@);
    }
    let mut keys: Vec<(i64, i64)> = Vec::new();
    let nh = heads.len();
    let mut j: usize = 0;
    while j < nh
        invariant
            nh == heads@.len(),
            nh == bars.len(),
            nh <= i64::MAX,
            j <= nh,
            keys@.len() == j,
            forall|q: int| 0 <= q < j ==> #[trigger] keys@[q] == (bars[q].2, q as i64),
            forall|q: int| 0 <= q < nh ==> heads@[q].start == (#[trigger] bars[q]).2,
        decreases nh - j,
    {
        proof {
            let _ = bars[j as int];
        }
        keys.push((heads[j].start, j as i64));
        j = j + 1;
    }
    let ghost key_seq = Seq::new(bars.len(), |q: int| (bars[q].2, q as i64));
    proof {
        assert(keys@ =~= key_seq);
    }
    let order = sort_spans(&keys);
    proof {
        crate::services::lemma_sort_elements(keys@);
        assert forall|q: int| 0 <= q < order@.len() implies 0 <= (#[trigger] order@[q]).1 < nh by {
            assert(sort_by_start(keys@).contains(order@[q]));
            assert(keys@.contains(order@[q]));
        }
    }
    let mut out: Vec<GanttTask> = Vec::new();
    let no = order.len();
    let mut q: usize = 0;
    while q < no
        invariant
            no == order@.len(),
            order@ == sort_by_start(key_seq),
            nh == heads@.len(),
            nh == bars.len(),
            nh == deps@.len(),
            q <= no,
            forall|x: int| 0 <= x < order@.len() ==> 0 <= (#[trigger] order@[x]).1 < nh,
            forall|k: int|
                0 <= k < nh ==> {
                    let g = #[trigger] bars[k];
                    &&& heads@[k].id@ == g.0
                    &&& heads@[k].title@ == g.1
                    &&& heads@[k].start == g.2
                    &&& heads@[k].end == g.3
                    &&& heads@[k].progress == g.4
                    &&& string_views(deps@[k]@) == g.5
                },
            out@.map_values(|t: GanttTask| gantt_view(t)) == order@.take(q as int).map_values(
                |p: (i64, i64)| bars[p.1 as int],
            ),
        decreases no - q,
    {
        let idx = order[q].1 as usize;
        let h = &heads[idx];
        let t = GanttTask {
            id: h.id.clone(),
            title: h.title.clone(),
            start: h.start,
            end: h.end,
            progress: h.progress,
            depends_on: copy_strings(&deps[idx]),
        };
        proof {
            let _ = bars[idx as int];
            assert(gantt_view(t) == bars[idx as int]);
        }
        let ghost prev_out = out@;
        out.push(t);
        proof {
            assert(out@.map_values(|t: GanttTask| gantt_view(t)) =~= prev_out.map_values(
                |t: GanttTask| gantt_view(t),
            ).push(gantt_view(t)));
            assert(order@.take(q + 1).map_values(|p: (i64, i64)| bars[p.1 as int])
                =~= order@.take(q as int).map_values(|p: (i64, i64)| bars[p.1 as int]).push(
                bars[idx as int],
            ));
        }
        q = q + 1;
    }
    proof {
        assert(order@.take(no as int) =~= order@);
    }
    Ok(out)
}

} // verus!
