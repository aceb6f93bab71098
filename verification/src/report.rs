//! The aggregation: one row per reportable child of the target directory,
//! sorted by timestamp descending, and the validation of the target itself.

use vstd::prelude::*;

use crate::scan::RowModel;
use crate::scan::ScanResult;
use crate::scan::VisitedEntry;
use crate::scan::VisitedModel;
use crate::scan::scan_fold;
use crate::scan::scan_subtree;
use crate::scan::sentinel_row;
use crate::scan::visited_views;
use crate::timestamp::Timestamp;

verus! {

/// One immediate child of the target directory, as the walk found it: a
/// regular file with its modification time where it could be read, a
/// directory with the entries visited in its subtree, or an entry of any
/// other kind, which the report passes over.
pub enum Child {
    File { path: String, modified: Option<Timestamp> },
    Directory { entries: Vec<VisitedEntry> },
    Other,
}

/// The mathematical shadow of a child.
pub ghost enum ChildModel {
    File { path: Seq<char>, modified: Option<int> },
    Directory { entries: Seq<VisitedModel> },
    Other,
}

impl View for Child {
    type V = ChildModel;

    open spec fn view(&self) -> ChildModel {
        match self {
            Child::File { path, modified } => ChildModel::File {
                path: path@,
                modified: match modified {
                    Some(t) => Some(t@),
                    None => None,
                },
            },
            Child::Directory { entries } => ChildModel::Directory {
                entries: visited_views(entries@),
            },
            Child::Other => ChildModel::Other,
        }
    }
}

impl Child {
    /// Every timestamp carried is well formed.
    pub open spec fn wf(self) -> bool {
        match self {
            Child::File { path, modified } => modified is Some ==> modified.unwrap().wf(),
            Child::Directory { entries } => forall|i: int|
                0 <= i < entries@.len() ==> entries@[i].wf(),
            Child::Other => true,
        }
    }
}

/// One line of the final output: the path displayed (a file's own path, or
/// a directory's representative file) and the timestamp reported for it.
pub struct ResultRow {
    pub display_path: String,
    pub timestamp: Timestamp,
}

impl View for ResultRow {
    type V = RowModel;

    open spec fn view(&self) -> RowModel {
        RowModel { path: self.display_path@, time: self.timestamp@ }
    }
}

impl ResultRow {
    pub open spec fn wf(self) -> bool {
        self.timestamp.wf()
    }
}

/// The views of a sequence of rows.
pub open spec fn row_views(s: Seq<ResultRow>) -> Seq<RowModel> {
    s.map_values(|r: ResultRow| r@)
}

/// The rows one child contributes: a readable file its own path and time, a
/// directory its subtree's scan outcome, anything else nothing.
pub open spec fn child_rows(c: ChildModel, sentinel: int) -> Seq<RowModel> {
    match c {
        ChildModel::File { path, modified } => match modified {
            Some(t) => seq![RowModel { path: path, time: t }],
            None => Seq::empty(),
        },
        ChildModel::Directory { entries } => seq![scan_fold(entries, sentinel_row(sentinel))],
        ChildModel::Other => Seq::empty(),
    }
}

/// The unsorted report: each child's rows, in the children's order.
pub open spec fn rows_of(children: Seq<ChildModel>, sentinel: int) -> Seq<RowModel>
    decreases children.len(),
{
    if children.len() == 0 {
        Seq::empty()
    } else {
        child_rows(children[0], sentinel) + rows_of(children.drop_first(), sentinel)
    }
}

/// The children of a sequence, viewed.
pub open spec fn child_views(s: Seq<Child>) -> Seq<ChildModel> {
    s.map_values(|c: Child| c@)
}

/// Collects one row per reportable child, in the children's order: a
/// regular file whose time was read under its own path, a directory under
/// its subtree's representative file; files whose time could not be read,
/// and entries of other kinds, contribute nothing.
pub fn collect_rows(children: &Vec<Child>, sentinel: Timestamp) -> (rows: Vec<ResultRow>)
    requires
        sentinel.wf(),
        forall|i: int| 0 <= i < children@.len() ==> children@[i].wf(),
    ensures
        row_views(rows@) == rows_of(child_views(children@), sentinel@),
        forall|i: int| 0 <= i < rows@.len() ==> rows@[i].wf(),
{
    let ghost cv = child_views(children@);
    let mut rows: Vec<ResultRow> = Vec::new();
    assert(row_views(rows@) =~= Seq::empty());
    assert(rows_of(cv, sentinel@) =~= row_views(rows@) + rows_of(cv.skip(0), sentinel@)) by {
        assert(cv.skip(0) =~= cv);
    }
    let mut i: usize = 0;
    while i < children.len()
        invariant
            0 <= i <= children@.len(),
            cv == child_views(children@),
            sentinel.wf(),
            forall|k: int| 0 <= k < children@.len() ==> children@[k].wf(),
            forall|k: int| 0 <= k < rows@.len() ==> rows@[k].wf(),
            rows_of(cv, sentinel@) == row_views(rows@) + rows_of(cv.skip(i as int), sentinel@),
        decreases children@.len() - i,
    {
        let ghost rows0 = row_views(rows@);
        proof {
            assert(cv.skip(i as int).drop_first() =~= cv.skip(i as int + 1));
            assert(cv.skip(i as int)[0] == cv[i as int]);
        }
        match &children[i] {
            Child::File { path, modified } => {
                if let Some(t) = modified {
                    rows.push(ResultRow { display_path: path.clone(), timestamp: *t });
                }
            },
            Child::Directory { entries } => {
                let scanned: ScanResult = scan_subtree(entries, sentinel);
                rows.push(
                    ResultRow {
                        display_path: scanned.representative_path,
                        timestamp: scanned.representative_time,
                    },
                );
            },
            Child::Other => {},
        }
        proof {
            assert(row_views(rows@) =~= rows0 + child_rows(cv[i as int], sentinel@));
            assert((rows0 + child_rows(cv[i as int], sentinel@)) + rows_of(
                cv.skip(i as int + 1),
                sentinel@,
            ) =~= rows0 + (child_rows(cv[i as int], sentinel@) + rows_of(
                cv.skip(i as int + 1),
                sentinel@,
            )));
        }
        i = i + 1;
    }
    proof {
        assert(cv.skip(children@.len() as int) =~= Seq::empty());
        assert(row_views(rows@) + Seq::<RowModel>::empty() =~= row_views(rows@));
    }
    rows
}

/// Where a row goes in a descending sequence: before the first row whose
/// time is strictly later than its own is passed, after every row at least
/// as late, so rows already placed keep their order on ties.
pub open spec fn insert_desc(r: RowModel, s: Seq<RowModel>) -> Seq<RowModel>
    decreases s.len(),
{
    if s.len() == 0 {
        seq![r]
    } else if r.time >= s[0].time {
        seq![r] + s
    } else {
        seq![s[0]] + insert_desc(r, s.drop_first())
    }
}

/// The report's order: each row inserted into the sorted rest.
pub open spec fn sort_desc(s: Seq<RowModel>) -> Seq<RowModel>
    decreases s.len(),
{
    if s.len() == 0 {
        Seq::empty()
    } else {
        insert_desc(s[0], sort_desc(s.drop_first()))
    }
}

/// Rows stand newest-first: no row is earlier than one after it.
pub open spec fn sorted_desc(s: Seq<RowModel>) -> bool {
    forall|i: int, j: int| 0 <= i <= j < s.len() ==> s[i].time >= s[j].time
}

/// Inserts a row into a vector sorted descending, keeping that order.
fn insert_row(rows: Vec<ResultRow>, r: ResultRow) -> (res: Vec<ResultRow>)
    requires
        r.wf(),
        forall|i: int| 0 <= i < rows@.len() ==> rows@[i].wf(),
    ensures
        row_views(res@) == insert_desc(r@, row_views(rows@)),
        forall|i: int| 0 <= i < res@.len() ==> res@[i].wf(),
    decreases rows@.len(),
{
    let ghost rv = row_views(rows@);
    if rows.len() == 0 {
        let mut res = rows;
        res.push(r);
        proof {
            assert(row_views(res@) =~= seq![r@]);
        }
        res
    } else if !r.timestamp.lt(&rows[0].timestamp) {
        let mut res = rows;
        res.insert(0, r);
        proof {
            assert(row_views(res@) =~= seq![r@] + rv);
        }
        res
    } else {
        let mut rest = rows;
        let first = rest.remove(0);
        proof {
            assert(row_views(rest@) =~= rv.drop_first());
        }
        let mut res = insert_row(rest, r);
        res.insert(0, first);
        proof {
            assert(row_views(res@) =~= seq![first@] + insert_desc(r@, rv.drop_first()));
        }
        res
    }
}

/// Sorts the rows by timestamp descending; rows of equal time keep their
/// order.
pub fn sort_rows(rows: Vec<ResultRow>) -> (res: Vec<ResultRow>)
    requires
        forall|i: int| 0 <= i < rows@.len() ==> rows@[i].wf(),
    ensures
        row_views(res@) == sort_desc(row_views(rows@)),
        forall|i: int| 0 <= i < res@.len() ==> res@[i].wf(),
    decreases rows@.len(),
{
    let ghost rv = row_views(rows@);
    if rows.len() == 0 {
        proof {
            assert(row_views(rows@) =~= Seq::empty());
        }
        rows
    } else {
        let mut rest = rows;
        let first = rest.remove(0);
        proof {
            assert(row_views(rest@) =~= rv.drop_first());
        }
        let sorted = sort_rows(rest);
        insert_row(sorted, first)
    }
}

/// Every row of an insertion stays under a bound that the inserted row and
/// the sequence's rows stay under.
proof fn lemma_insert_desc_bound(r: RowModel, s: Seq<RowModel>, b: int)
    requires
        r.time <= b,
        forall|i: int| 0 <= i < s.len() ==> s[i].time <= b,
    ensures
        forall|i: int| 0 <= i < insert_desc(r, s).len() ==> #[trigger] insert_desc(r, s)[i].time
            <= b,
    decreases s.len(),
{
    if s.len() == 0 {
    } else if r.time >= s[0].time {
        assert forall|i: int| 0 <= i < insert_desc(r, s).len() implies #[trigger] insert_desc(
            r,
            s,
        )[i].time <= b by {
            if i > 0 {
                assert(insert_desc(r, s)[i] == s[i - 1]);
            }
        }
    } else {
        let rest = s.drop_first();
        assert forall|i: int| 0 <= i < rest.len() implies rest[i].time <= b by {
            assert(rest[i] == s[i + 1]);
        }
        lemma_insert_desc_bound(r, rest, b);
        assert forall|i: int| 0 <= i < insert_desc(r, s).len() implies #[trigger] insert_desc(
            r,
            s,
        )[i].time <= b by {
            if i > 0 {
                assert(insert_desc(r, s)[i] == insert_desc(r, rest)[i - 1]);
            }
        }
    }
}

/// Law: inserting into a descending sequence keeps it descending.
proof fn lemma_insert_desc_sorted(r: RowModel, s: Seq<RowModel>)
    requires
        sorted_desc(s),
    ensures
        sorted_desc(insert_desc(r, s)),
        insert_desc(r, s).len() == s.len() + 1,
    decreases s.len(),
{
    if s.len() == 0 {
    } else if r.time >= s[0].time {
        assert forall|i: int, j: int|
            0 <= i <= j < insert_desc(r, s).len() implies insert_desc(r, s)[i].time >= insert_desc(
            r,
            s,
        )[j].time by {
            if i > 0 {
                assert(insert_desc(r, s)[i] == s[i - 1]);
            }
            if j > 0 {
                assert(insert_desc(r, s)[j] == s[j - 1]);
            }
        }
    } else {
        let rest = s.drop_first();
        assert forall|i: int, j: int| 0 <= i <= j < rest.len() implies rest[i].time
            >= rest[j].time by {
            assert(rest[i] == s[i + 1]);
            assert(rest[j] == s[j + 1]);
        }
        lemma_insert_desc_sorted(r, rest);
        let inner = insert_desc(r, rest);
        assert forall|i: int| 0 <= i < rest.len() implies rest[i].time <= s[0].time by {
            assert(rest[i] == s[i + 1]);
        }
        lemma_insert_desc_bound(r, rest, s[0].time);
        assert forall|i: int, j: int|
            0 <= i <= j < insert_desc(r, s).len() implies insert_desc(r, s)[i].time >= insert_desc(
            r,
            s,
        )[j].time by {
            if i > 0 {
                assert(insert_desc(r, s)[i] == inner[i - 1]);
            }
            if j > 0 {
                assert(insert_desc(r, s)[j] == inner[j - 1]);
            }
        }
    }
}

/// Law: the sorted report stands newest-first — for any two rows, the one
/// at the lower index is at least as late — and keeps every row.
pub proof fn lemma_sort_desc_sorted(s: Seq<RowModel>)
    ensures
        sorted_desc(sort_desc(s)),
        sort_desc(s).len() == s.len(),
    decreases s.len(),
{
    if s.len() > 0 {
        lemma_sort_desc_sorted(s.drop_first());
        lemma_insert_desc_sorted(s[0], sort_desc(s.drop_first()));
    }
}

/// Law: in a descending report a row strictly earlier than another stands
/// strictly after it; a sentinel row, earlier than every real row, sorts
/// last.
pub proof fn lemma_earlier_stands_later(s: Seq<RowModel>, i: int, j: int)
    requires
        sorted_desc(s),
        0 <= i < s.len(),
        0 <= j < s.len(),
        s[i].time < s[j].time,
    ensures
        j < i,
{
}

/// A child that contributes a row to the report: a regular file whose
/// modification time was read, or a directory.
pub open spec fn reportable(c: ChildModel) -> bool {
    match c {
        ChildModel::File { path, modified } => modified is Some,
        ChildModel::Directory { entries } => true,
        ChildModel::Other => false,
    }
}

/// How many children contribute a row.
pub open spec fn reportable_count(children: Seq<ChildModel>) -> nat
    decreases children.len(),
{
    if children.len() == 0 {
        0
    } else {
        (if reportable(children[0]) {
            1nat
        } else {
            0nat
        }) + reportable_count(children.drop_first())
    }
}

/// Law: the report holds exactly one row per reportable child — children
/// of other kinds, and files whose time could not be read, add none.
pub proof fn lemma_row_count(children: Seq<ChildModel>, sentinel: int)
    ensures
        sort_desc(rows_of(children, sentinel)).len() == reportable_count(children),
    decreases children.len(),
{
    lemma_sort_desc_sorted(rows_of(children, sentinel));
    if children.len() > 0 {
        lemma_row_count(children.drop_first(), sentinel);
        lemma_sort_desc_sorted(rows_of(children.drop_first(), sentinel));
    }
}

/// Law: a file child whose modification time could not be read is excluded
/// and changes nothing else: removing it leaves the report's rows as they
/// were.
pub proof fn lemma_unreadable_excluded(children: Seq<ChildModel>, k: int, sentinel: int)
    requires
        0 <= k < children.len(),
        children[k] matches ChildModel::File { path: _, modified: None },
    ensures
        rows_of(children.remove(k), sentinel) == rows_of(children, sentinel),
    decreases children.len(),
{
    if k == 0 {
        assert(children.remove(0) =~= children.drop_first());
        assert(child_rows(children[0], sentinel) =~= Seq::empty());
        assert(Seq::empty() + rows_of(children.drop_first(), sentinel) =~= rows_of(
            children.drop_first(),
            sentinel,
        ));
    } else {
        let rest = children.drop_first();
        assert(rest[k - 1] == children[k]);
        lemma_unreadable_excluded(rest, k - 1, sentinel);
        assert(children.remove(k).drop_first() =~= rest.remove(k - 1));
        assert(children.remove(k)[0] == children[0]);
        assert(children.remove(k).len() > 0);
    }
}

/// Law: the report is a function of the children snapshot and the sentinel
/// alone — two scans of an unmodified tree with the same sentinel give the
/// same rows in the same order.
pub proof fn lemma_report_deterministic(
    c1: Seq<ChildModel>,
    c2: Seq<ChildModel>,
    s1: int,
    s2: int,
)
    requires
        c1 == c2,
        s1 == s2,
    ensures
        sort_desc(rows_of(c1, s1)) == sort_desc(rows_of(c2, s2)),
{
}

/// The whole aggregation: one row per reportable child of the target, each
/// directory under its subtree's most recently modified file, sorted by
/// timestamp descending.
pub fn aggregate(children: &Vec<Child>, sentinel: Timestamp) -> (rows: Vec<ResultRow>)
    requires
        sentinel.wf(),
        forall|i: int| 0 <= i < children@.len() ==> children@[i].wf(),
    ensures
        row_views(rows@) == sort_desc(rows_of(child_views(children@), sentinel@)),
        sorted_desc(row_views(rows@)),
        rows@.len() == reportable_count(child_views(children@)),
        forall|i: int| 0 <= i < rows@.len() ==> rows@[i].wf(),
{
    let collected = collect_rows(children, sentinel);
    let rows = sort_rows(collected);
    proof {
        lemma_sort_desc_sorted(rows_of(child_views(children@), sentinel@));
        lemma_row_count(child_views(children@), sentinel@);
    }
    rows
}

/// Why a target cannot be scanned: it does not exist, or it exists but is
/// not a directory.
#[derive(Clone, Copy, PartialEq, Eq, Structural, Debug)]
pub enum TargetError {
    DoesNotExist,
    NotADirectory,
}

/// Validates the target before any scanning: it must exist and must be a
/// directory, and each failure is its own reportable error.
pub fn check_target(exists: bool, is_dir: bool) -> (r: Result<(), TargetError>)
    ensures
        r is Ok <==> exists && is_dir,
        (r matches Err(e) && e == TargetError::DoesNotExist) <==> !exists,
        (r matches Err(e) && e == TargetError::NotADirectory) <==> exists && !is_dir,
{
    if !exists {
        Err(TargetError::DoesNotExist)
    } else if !is_dir {
        Err(TargetError::NotADirectory)
    } else {
        Ok(())
    }
}

} // verus!
