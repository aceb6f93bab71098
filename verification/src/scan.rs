//! The subtree scan: over the entries visited in a directory tree, keep a
//! running best-so-far and hand back the single most recently modified
//! regular file, or the sentinel when there is none.

use vstd::prelude::*;

use crate::timestamp::Timestamp;

verus! {

/// One entry visited while walking a subtree: its path, whether it is a
/// regular file, and its modification time where it could be read.
pub struct VisitedEntry {
    pub path: String,
    pub is_file: bool,
    pub modified: Option<Timestamp>,
}

/// The mathematical shadow of a visited entry.
pub ghost struct VisitedModel {
    pub path: Seq<char>,
    pub is_file: bool,
    pub modified: Option<int>,
}

impl View for VisitedEntry {
    type V = VisitedModel;

    open spec fn view(&self) -> VisitedModel {
        VisitedModel {
            path: self.path@,
            is_file: self.is_file,
            modified: match self.modified {
                Some(t) => Some(t@),
                None => None,
            },
        }
    }
}

impl VisitedEntry {
    /// Any timestamp carried is well formed.
    pub open spec fn wf(self) -> bool {
        self.modified is Some ==> self.modified.unwrap().wf()
    }
}

/// The outcome of scanning a subtree: the path of the file whose timestamp
/// is reported, and that timestamp; the empty path with the sentinel when
/// the subtree holds no readable regular file.
pub struct ScanResult {
    pub representative_path: String,
    pub representative_time: Timestamp,
}

/// The mathematical shadow of a scan outcome, shared with result rows: a
/// path and the instant reported for it.
pub ghost struct RowModel {
    pub path: Seq<char>,
    pub time: int,
}

impl View for ScanResult {
    type V = RowModel;

    open spec fn view(&self) -> RowModel {
        RowModel { path: self.representative_path@, time: self.representative_time@ }
    }
}

impl ScanResult {
    pub open spec fn wf(self) -> bool {
        self.representative_time.wf()
    }
}

/// An entry counts for the scan when it is a regular file whose
/// modification time could be read.
pub open spec fn eligible(e: VisitedModel) -> bool {
    e.is_file && e.modified is Some
}

/// One step of the running best-so-far: an eligible entry strictly later
/// than the best seen replaces it; everything else leaves it unchanged,
/// so on a tie the first entry encountered wins.
pub open spec fn scan_step(e: VisitedModel, acc: RowModel) -> RowModel {
    if eligible(e) && e.modified.unwrap() > acc.time {
        RowModel { path: e.path, time: e.modified.unwrap() }
    } else {
        acc
    }
}

/// The whole scan: the best-so-far folded over the visited entries in
/// order, starting from `init` (the sentinel with the empty path).
pub open spec fn scan_fold(entries: Seq<VisitedModel>, acc: RowModel) -> RowModel
    decreases entries.len(),
{
    if entries.len() == 0 {
        acc
    } else {
        scan_fold(entries.drop_first(), scan_step(entries[0], acc))
    }
}

/// The views of a sequence of visited entries.
pub open spec fn visited_views(s: Seq<VisitedEntry>) -> Seq<VisitedModel> {
    s.map_values(|e: VisitedEntry| e@)
}

/// The row a scan starts from: the sentinel instant under the empty path.
pub open spec fn sentinel_row(sentinel: int) -> RowModel {
    RowModel { path: Seq::empty(), time: sentinel }
}

/// Scans the visited entries of one subtree and reports the most recently
/// modified regular file among them, first encountered wins on ties;
/// entries that are no regular file, or whose time could not be read, are
/// passed over. With none to report, the result is the sentinel time under
/// the empty path.
pub fn scan_subtree(entries: &Vec<VisitedEntry>, sentinel: Timestamp) -> (r: ScanResult)
    requires
        sentinel.wf(),
        forall|i: int| 0 <= i < entries@.len() ==> entries@[i].wf(),
    ensures
        r@ == scan_fold(visited_views(entries@), sentinel_row(sentinel@)),
        r.wf(),
{
    let ghost vm = visited_views(entries@);
    let mut acc = ScanResult { representative_path: String::new(), representative_time: sentinel };
    assert(acc@ == sentinel_row(sentinel@));
    assert(vm.skip(0) =~= vm);
    let mut i: usize = 0;
    while i < entries.len()
        invariant
            0 <= i <= entries@.len(),
            vm == visited_views(entries@),
            forall|k: int| 0 <= k < entries@.len() ==> entries@[k].wf(),
            acc.wf(),
            scan_fold(vm, sentinel_row(sentinel@)) == scan_fold(vm.skip(i as int), acc@),
        decreases entries@.len() - i,
    {
        let e = &entries[i];
        let ghost acc0 = acc@;
        proof {
            assert(vm.skip(i as int).drop_first() =~= vm.skip(i as int + 1));
            assert(vm.skip(i as int)[0] == vm[i as int]);
        }
        if let Some(t) = &e.modified {
            if e.is_file && acc.representative_time.lt(t) {
                acc = ScanResult {
                    representative_path: e.path.clone(),
                    representative_time: *t,
                };
            }
        }
        assert(acc@ == scan_step(vm[i as int], acc0));
        i = i + 1;
    }
    proof {
        assert(vm.skip(entries@.len() as int) =~= Seq::empty());
    }
    acc
}

/// Law: a subtree with no eligible entry — no regular file whose time
/// could be read — reports the start row unchanged, so a fresh scan of it
/// yields the sentinel under the empty path.
pub proof fn lemma_scan_none(entries: Seq<VisitedModel>, init: RowModel)
    requires
        forall|i: int| 0 <= i < entries.len() ==> !eligible(entries[i]),
    ensures
        scan_fold(entries, init) == init,
    decreases entries.len(),
{
    if entries.len() > 0 {
        assert(!eligible(entries[0]));
        assert forall|i: int| 0 <= i < entries.drop_first().len() implies !eligible(
            entries.drop_first()[i],
        ) by {
            assert(entries.drop_first()[i] == entries[i + 1]);
        }
        lemma_scan_none(entries.drop_first(), init);
    }
}

/// Law: when exactly one entry is eligible and its time lies after the
/// start row's, the scan reports exactly that entry's path and time.
pub proof fn lemma_scan_single(entries: Seq<VisitedModel>, init: RowModel, k: int)
    requires
        0 <= k < entries.len(),
        eligible(entries[k]),
        entries[k].modified.unwrap() > init.time,
        forall|i: int| 0 <= i < entries.len() && i != k ==> !eligible(entries[i]),
    ensures
        scan_fold(entries, init) == (RowModel {
            path: entries[k].path,
            time: entries[k].modified.unwrap(),
        }),
    decreases entries.len(),
{
    let rest = entries.drop_first();
    if k == 0 {
        let picked = RowModel { path: entries[0].path, time: entries[0].modified.unwrap() };
        assert(scan_step(entries[0], init) == picked);
        assert forall|i: int| 0 <= i < rest.len() implies !eligible(rest[i]) by {
            assert(rest[i] == entries[i + 1]);
        }
        lemma_scan_none(rest, picked);
    } else {
        assert(!eligible(entries[0]));
        assert(scan_step(entries[0], init) == init);
        assert(rest[k - 1] == entries[k]);
        assert forall|i: int| 0 <= i < rest.len() && i != k - 1 implies !eligible(rest[i]) by {
            assert(rest[i] == entries[i + 1]);
        }
        lemma_scan_single(rest, init, k - 1);
    }
}

/// Law: the scan's outcome is never earlier than the start row, nor than
/// any eligible entry it visited: it reports the subtree's most recent
/// readable regular file.
pub proof fn lemma_scan_max(entries: Seq<VisitedModel>, init: RowModel)
    ensures
        scan_fold(entries, init).time >= init.time,
        forall|i: int|
            0 <= i < entries.len() && eligible(entries[i]) ==> scan_fold(entries, init).time
                >= entries[i].modified.unwrap(),
    decreases entries.len(),
{
    if entries.len() > 0 {
        let stepped = scan_step(entries[0], init);
        let rest = entries.drop_first();
        lemma_scan_max(rest, stepped);
        assert forall|i: int|
            0 <= i < entries.len() && eligible(entries[i]) implies scan_fold(entries, init).time
            >= entries[i].modified.unwrap() by {
            if i > 0 {
                assert(rest[i - 1] == entries[i]);
            }
        }
    }
}

} // verus!
