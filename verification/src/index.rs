//! The index as a value: a table of rows, the update of one path on it, and
//! the search for exact duplicates reported as a stream of messages.

use vstd::prelude::*;
use crate::cluster::{Criterion, duplicate_sets, is_led};
use crate::entry::{Entry, EntryView, rows_view};
use crate::error::HashIndexError;
use crate::fingerprint::{Fingerprint, ImageProbe, fingerprint, is_fingerprint_of};
use crate::message::{BinDupeMessage, MessageView, messages_view, encode, messages_upto, set_messages};
use crate::policy::{
    KeepWhichFile,
    keep_order,
    order_members,
    members_in_range,
    distinct_paths,
};
use crate::search::{find_exact_duplicates, find_near_duplicates};
use crate::hamming::budget_spec;
use crate::partition::groups_by_key;
use crate::update::{
    RowStamp,
    StatOutcome,
    UpdateOutcome,
    UpdatePlan,
    Resolution,
    ResolutionView,
    plan_spec,
    plan_update,
    resolve_spec,
    resolve_update,
};

verus! {

/// The number of the first row, from `from` on, with the path; the number of
/// rows where there is none.
pub open spec fn first_with_path(rows: Seq<EntryView>, path: Seq<char>, from: int) -> int
    decreases rows.len() - from,
{
    if from < 0 || from >= rows.len() {
        rows.len() as int
    } else if rows[from].full_path == path {
        from
    } else {
        first_with_path(rows, path, from + 1)
    }
}

/// The first row with the path is at or after the start of the search, no
/// row between the start and it has the path, and it has the path.
pub proof fn lemma_first_with_path(rows: Seq<EntryView>, path: Seq<char>, from: int)
    requires
        0 <= from <= rows.len(),
    ensures
        from <= first_with_path(rows, path, from) <= rows.len(),
        first_with_path(rows, path, from) < rows.len() ==> rows[first_with_path(
            rows,
            path,
            from,
        )].full_path == path,
        forall|j: int|
            from <= j < first_with_path(rows, path, from) ==> (#[trigger] rows[j]).full_path
                != path,
    decreases rows.len() - from,
{
    if from < rows.len() && rows[from].full_path != path {
        lemma_first_with_path(rows, path, from + 1);
    }
}

/// The stamp of a row.
pub open spec fn stamp_of(e: EntryView) -> RowStamp {
    RowStamp { file_size: e.file_size, modified_time: e.modified_time }
}

/// The stamps of those of the first `n` rows that have the path, in index
/// order.
pub open spec fn stamps_upto(rows: Seq<EntryView>, path: Seq<char>, n: int) -> Seq<RowStamp>
    decreases n,
{
    if n <= 0 {
        Seq::empty()
    } else if rows[n - 1].full_path == path {
        stamps_upto(rows, path, n - 1).push(stamp_of(rows[n - 1]))
    } else {
        stamps_upto(rows, path, n - 1)
    }
}

/// What the table holds for a path: the stamps of its rows with the path.
pub open spec fn stored_stamps(rows: Seq<EntryView>, path: Seq<char>) -> Seq<RowStamp> {
    stamps_upto(rows, path, rows.len() as int)
}

/// The stamps for a path depend only on the rows that were looked at, and
/// there are none where none of those rows has the path.
pub proof fn lemma_stamps_upto(rows: Seq<EntryView>, other: Seq<EntryView>, path: Seq<char>, n: int)
    requires
        0 <= n <= rows.len(),
        n <= other.len(),
        forall|j: int| 0 <= j < n ==> rows[j] == other[j],
    ensures
        stamps_upto(rows, path, n) == stamps_upto(other, path, n),
        (forall|j: int| 0 <= j < n ==> (#[trigger] rows[j]).full_path != path) ==> stamps_upto(
            rows,
            path,
            n,
        ) == Seq::<RowStamp>::empty(),
    decreases n,
{
    if n > 0 {
        lemma_stamps_upto(rows, other, path, n - 1);
    }
}

/// The table after `e` was written: the row that had its path, if any, is
/// gone, and `e` is the last row.
pub open spec fn upsert_spec(rows: Seq<EntryView>, e: EntryView) -> Seq<EntryView> {
    let at = first_with_path(rows, e.full_path, 0);
    if at < rows.len() {
        rows.remove(at).push(e)
    } else {
        rows.push(e)
    }
}

/// The table and the result after the update of one path, given what the
/// stat returned and the fingerprint of the file's bytes. The fingerprint
/// counts only where the file has to be hashed again.
pub open spec fn update_spec(
    rows: Seq<EntryView>,
    path: Seq<char>,
    stat: StatOutcome,
    fp: Fingerprint,
) -> (Seq<EntryView>, Result<UpdateOutcome, HashIndexError>) {
    match plan_spec(stat, stored_stamps(rows, path)) {
        UpdatePlan::Done(r) => (rows, r),
        UpdatePlan::Rehash(s) => match resolve_spec(path, s, fp) {
            ResolutionView::Write { entry, report } => (upsert_spec(rows, entry), report),
            ResolutionView::Skip(e) => (rows, Err(e)),
        },
    }
}

/// The paths of the rows that a sequence of row numbers names.
pub open spec fn paths_at(rows: Seq<EntryView>, members: Seq<usize>) -> Seq<Seq<char>> {
    Seq::new(members.len(), |k: int| rows[members[k] as int].full_path)
}

/// The paths of each set, its members in keep order.
pub open spec fn ordered_sets(
    rows: Seq<EntryView>,
    sets: Seq<Seq<usize>>,
    method: KeepWhichFile,
    reversed: bool,
) -> Seq<Seq<Seq<char>>> {
    Seq::new(sets.len(), |k: int| paths_at(rows, keep_order(rows, method, reversed, sets[k])))
}

/// Every set names rows of the table only.
pub open spec fn sets_in_range(sets: Seq<Seq<usize>>, len: nat) -> bool {
    forall|k: int| 0 <= k < sets.len() ==> members_in_range(#[trigger] sets[k], len)
}

/// Writing a row into a table without two rows of the same path leaves it
/// so. The row is then the last one and the only one with its path, and the
/// rows with other paths are those that were there.
pub proof fn lemma_upsert(rows: Seq<EntryView>, e: EntryView)
    requires
        distinct_paths(rows),
    ensures
        distinct_paths(upsert_spec(rows, e)),
        upsert_spec(rows, e).len() > 0,
        upsert_spec(rows, e).last() == e,
        first_with_path(upsert_spec(rows, e), e.full_path, 0) == upsert_spec(rows, e).len() - 1,
        stored_stamps(upsert_spec(rows, e), e.full_path) == seq![stamp_of(e)],
        forall|x: EntryView|
            x.full_path != e.full_path ==> (rows.contains(x) <==> upsert_spec(rows, e).contains(
                x,
            )),
{
    let at = first_with_path(rows, e.full_path, 0);
    let up = upsert_spec(rows, e);
    lemma_first_with_path(rows, e.full_path, 0);
    let kept = if at < rows.len() {
        rows.remove(at)
    } else {
        rows
    };
    assert(stored_stamps(up, e.full_path) == seq![stamp_of(e)]) by {
        lemma_stamps_upto(up, kept, e.full_path, kept.len() as int);
    }
    lemma_first_with_path(up, e.full_path, 0);
    assert forall|x: EntryView| x.full_path != e.full_path implies (rows.contains(x)
        <==> up.contains(x)) by {
        if rows.contains(x) {
            let i = choose|i: int| 0 <= i < rows.len() && rows[i] == x;
            assert(up[if at < rows.len() && i > at {
                i - 1
            } else {
                i
            }] == x);
        }
    }
}

/// An update leaves a table without two rows of the same path so.
pub proof fn lemma_update_keeps_paths_distinct(
    rows: Seq<EntryView>,
    path: Seq<char>,
    stat: StatOutcome,
    fp: Fingerprint,
)
    requires
        distinct_paths(rows),
    ensures
        distinct_paths(update_spec(rows, path, stat, fp).0),
{
    match plan_spec(stat, stored_stamps(rows, path)) {
        UpdatePlan::Done(r) => {},
        UpdatePlan::Rehash(s) => match resolve_spec(path, s, fp) {
            ResolutionView::Write { entry, report } => {
                lemma_upsert(rows, entry);
            },
            ResolutionView::Skip(e) => {},
        },
    }
}

/// An update writes at most one row, and only where it ends with `Indexed`
/// or `Format`: with every other result the table is as it was.
pub proof fn lemma_update_writes(
    rows: Seq<EntryView>,
    path: Seq<char>,
    stat: StatOutcome,
    fp: Fingerprint,
)
    ensures
        ({
            let (after, result) = update_spec(rows, path, stat, fp);
            if result == Ok::<UpdateOutcome, HashIndexError>(UpdateOutcome::Indexed) || result
                == Err::<UpdateOutcome, HashIndexError>(HashIndexError::Format) {
                exists|e: EntryView|
                    #![trigger upsert_spec(rows, e)]
                    after == upsert_spec(rows, e) && e.full_path == path && e.ignored() == (result
                        is Err)
            } else {
                after == rows
            }
        }),
{
}

/// An update is idempotent. After an update of a path that found the file
/// and ended with `Unchanged`, `Indexed` or `Format`, a second update of the
/// path with the same stat ends with `Unchanged` and leaves the table as the
/// first one left it, whatever the bytes of the file are by then.
pub proof fn lemma_update_idempotent(
    rows: Seq<EntryView>,
    path: Seq<char>,
    stat: StatOutcome,
    first: Fingerprint,
    second: Fingerprint,
)
    requires
        distinct_paths(rows),
        update_spec(rows, path, stat, first).1 is Ok || update_spec(rows, path, stat, first).1
            == Err::<UpdateOutcome, HashIndexError>(HashIndexError::Format),
    ensures
        update_spec(update_spec(rows, path, stat, first).0, path, stat, second) == (
            update_spec(rows, path, stat, first).0,
            Ok::<UpdateOutcome, HashIndexError>(UpdateOutcome::Unchanged),
        ),
{
    match plan_spec(stat, stored_stamps(rows, path)) {
        UpdatePlan::Done(r) => {},
        UpdatePlan::Rehash(s) => match resolve_spec(path, s, first) {
            ResolutionView::Write { entry, report } => {
                lemma_upsert(rows, entry);
            },
            ResolutionView::Skip(e) => {},
        },
    }
}

/// The index: the rows of the store, in the order in which the store holds
/// them.
pub struct HashIndexer {
    rows: Vec<Entry>,
}

impl View for HashIndexer {
    type V = Seq<EntryView>;

    closed spec fn view(&self) -> Seq<EntryView> {
        rows_view(self.rows@)
    }
}

impl HashIndexer {
    /// An index is consistent when no two of its rows have the same path.
    pub open spec fn is_consistent(&self) -> bool {
        distinct_paths(self@)
    }

    /// An index without rows.
    pub fn new() -> (r: HashIndexer)
        ensures
            r@ == Seq::<EntryView>::empty(),
            r.is_consistent(),
    {
        HashIndexer { rows: Vec::new() }
    }

    /// The index that holds `rows`, as they were read from the store.
    pub fn from_rows(rows: Vec<Entry>) -> (r: HashIndexer)
        ensures
            r@ == rows_view(rows@),
    {
        HashIndexer { rows }
    }

    /// The rows of the index.
    pub fn rows(&self) -> (rows: &Vec<Entry>)
        ensures
            rows_view(rows@) == self@,
    {
        &self.rows
    }

    /// The number of rows.
    pub fn len(&self) -> (n: usize)
        ensures
            n == self@.len(),
    {
        self.rows.len()
    }

    /// What the index holds for a path: the stamps of its rows with the
    /// path, in index order.
    pub fn stamps(&self, full_path: &String) -> (stored: Vec<RowStamp>)
        ensures
            stored@ == stored_stamps(self@, full_path@),
    {
        let ghost table = self@;
        let mut stored: Vec<RowStamp> = Vec::new();
        let mut n: usize = 0;
        while n < self.rows.len()
            invariant
                n <= self.rows.len(),
                table == rows_view(self.rows@),
                stored@ == stamps_upto(table, full_path@, n as int),
            decreases self.rows.len() - n,
        {
            if self.rows[n].full_path == *full_path {
                stored.push(
                    RowStamp {
                        file_size: self.rows[n].file_size,
                        modified_time: self.rows[n].modified_time,
                    },
                );
            }
            n = n + 1;
        }
        stored
    }

    /// Writes a row: it takes the place of the row with its path, if there
    /// is one, and is the last row then.
    pub fn upsert(&mut self, entry: Entry)
        ensures
            final(self)@ == upsert_spec(old(self)@, entry@),
            old(self).is_consistent() ==> final(self).is_consistent(),
    {
        let ghost before = self@;
        let at = find_path(&self.rows, &entry.full_path, 0);
        if at < self.rows.len() {
            self.rows.remove(at);
            assert(rows_view(self.rows@) =~= before.remove(at as int));
        }
        let ghost kept = rows_view(self.rows@);
        self.rows.push(entry);
        assert(rows_view(self.rows@) =~= kept.push(entry@));
        proof {
            if distinct_paths(before) {
                lemma_upsert(before, entry@);
            }
        }
    }

    /// The update of one path, with the fingerprint of its file at hand.
    ///
    /// `stat` is what the stat of the path returned, `fp` the fingerprint of
    /// the file's bytes; it counts only where the file has to be hashed
    /// again. The table and the result are those of [`update_spec`].
    pub fn apply_update(&mut self, full_path: &String, stat: &StatOutcome, fp: Fingerprint) -> (r:
        Result<UpdateOutcome, HashIndexError>)
        ensures
            (final(self)@, r) == update_spec(old(self)@, full_path@, *stat, fp),
            old(self).is_consistent() ==> final(self).is_consistent(),
    {
        match plan_update(stat, &self.stamps(full_path)) {
            UpdatePlan::Done(r) => r,
            UpdatePlan::Rehash(s) => match resolve_update(full_path, s, fp) {
                Resolution::Write { entry, report } => {
                    self.upsert(entry);
                    report
                },
                Resolution::Skip(e) => Err(e),
            },
        }
    }

    /// The update of one path.
    ///
    /// `stat` is what the stat of the path returned, `bytes` are the bytes of
    /// the file; they are hashed only where the file has to be hashed again.
    /// The table and the result are those of [`update_spec`] for a
    /// fingerprint of the bytes: their content hash, whether they decode as
    /// an image, and for an image some perceptual hash.
    pub fn update(&mut self, full_path: String, stat: StatOutcome, bytes: &[u8]) -> (r: Result<
        UpdateOutcome,
        HashIndexError,
    >)
        ensures
            exists|fp: Fingerprint|
                is_fingerprint_of(bytes@, fp) && #[trigger] update_spec(
                    old(self)@,
                    full_path@,
                    stat,
                    fp,
                ) == (final(self)@, r),
            old(self).is_consistent() ==> final(self).is_consistent(),
    {
        match plan_update(&stat, &self.stamps(&full_path)) {
            UpdatePlan::Done(r) => {
                proof {
                    let fp = some_fingerprint(bytes@);
                    assert(update_spec(old(self)@, full_path@, stat, fp) == (self@, r));
                }
                r
            },
            UpdatePlan::Rehash(s) => {
                let fp = fingerprint(bytes);
                self.apply_update(&full_path, &stat, fp)
            },
        }
    }

    /// The sets of rows with the same content hash, as row numbers in index
    /// order.
    pub fn find_exact_duplicates(&self, include_ignored: bool) -> (sets: Vec<Vec<usize>>)
        ensures
            sets.deep_view() == duplicate_sets(self@, Criterion::Content { include_ignored }),
            groups_by_key(self@, Criterion::Content { include_ignored }, sets.deep_view()),
    {
        find_exact_duplicates(&self.rows, include_ignored)
    }

    /// The sets of rows with near perceptual hashes, as row numbers in index
    /// order.
    pub fn find_near_duplicates(&self, distance_threshold_percent: u8) -> (sets: Vec<Vec<usize>>)
        ensures
            sets.deep_view() == duplicate_sets(
                self@,
                Criterion::Perceptual { budget: budget_spec(distance_threshold_percent) as u32 },
            ),
            is_led(
                self@,
                Criterion::Perceptual { budget: budget_spec(distance_threshold_percent) as u32 },
                sets.deep_view(),
            ),
            budget_spec(distance_threshold_percent) == 0 ==> groups_by_key(
                self@,
                Criterion::Perceptual { budget: 0 },
                sets.deep_view(),
            ),
    {
        find_near_duplicates(&self.rows, distance_threshold_percent)
    }

    /// The exact duplicates of the index as a stream of messages: for each
    /// set a marker, then the paths of its members in keep order, the copy to
    /// retain first.
    pub fn find_bindupes(&self, incl_ignored: bool, method: KeepWhichFile, reversed: bool) -> (out:
        Vec<BinDupeMessage>)
        ensures
            messages_view(out@) == encode(
                ordered_sets(
                    self@,
                    duplicate_sets(self@, Criterion::Content { include_ignored: incl_ignored }),
                    method,
                    reversed,
                ),
            ),
    {
        let sets = find_exact_duplicates(&self.rows, incl_ignored);
        proof {
            // the members of the sets are rows of the index
            reveal(groups_by_key);
            assert(sets_in_range(sets.deep_view(), self.rows@.len()));
        }
        report_sets(&self.rows, &sets, method, reversed)
    }
}

/// The number of the first row, from `from` on, with the path.
fn find_path(rows: &Vec<Entry>, full_path: &String, from: usize) -> (at: usize)
    requires
        from <= rows@.len(),
    ensures
        at == first_with_path(rows_view(rows@), full_path@, from as int),
        from <= at <= rows@.len(),
{
    let ghost table = rows_view(rows@);
    let mut at = from;
    while at < rows.len() && !(rows[at].full_path == *full_path)
        invariant
            from <= at <= rows@.len(),
            table == rows_view(rows@),
            first_with_path(table, full_path@, from as int) == first_with_path(
                table,
                full_path@,
                at as int,
            ),
        decreases rows.len() - at,
    {
        at = at + 1;
    }
    at
}

/// A fingerprint that agrees with the bytes, for the proof that one exists.
proof fn some_fingerprint(bytes: Seq<u8>) -> (fp: Fingerprint)
    ensures
        is_fingerprint_of(bytes, fp),
{
    let image = match crate::fingerprint::load_failure_spec(bytes) {
        None => ImageProbe::Decoded(arbitrary()),
        Some(k) => ImageProbe::Failed(k),
    };
    Fingerprint { content_hash: crate::fingerprint::xxh3_64_spec(bytes), image }
}

/// Duplicate sets as a stream of messages: for each set a marker, then the
/// paths of its members in keep order.
pub fn report_sets(
    rows: &Vec<Entry>,
    sets: &Vec<Vec<usize>>,
    method: KeepWhichFile,
    reversed: bool,
) -> (out: Vec<BinDupeMessage>)
    requires
        sets_in_range(sets.deep_view(), rows@.len()),
    ensures
        messages_view(out@) == encode(
            ordered_sets(rows_view(rows@), sets.deep_view(), method, reversed),
        ),
{
    let ghost table = rows_view(rows@);
    let ghost all = sets.deep_view();
    let ghost want = ordered_sets(table, all, method, reversed);
    let mut out: Vec<BinDupeMessage> = Vec::new();
    let mut k: usize = 0;
    while k < sets.len()
        invariant
            k <= sets.len(),
            table == rows_view(rows@),
            all == sets.deep_view(),
            want == ordered_sets(table, all, method, reversed),
            sets_in_range(all, rows@.len()),
            messages_view(out@) == messages_upto(want, k as int),
        decreases sets.len() - k,
    {
        proof {
            assert(all[k as int] == sets@[k as int].deep_view());
            assert(sets@[k as int].deep_view() =~= sets@[k as int]@);
        }
        let ordered = order_members(rows, &sets[k], method, reversed);
        let ghost paths = paths_at(table, ordered@);
        let ghost done = messages_view(out@);
        out.push(BinDupeMessage::NewSet);
        let mut j: usize = 0;
        while j < ordered.len()
            invariant
                j <= ordered.len(),
                table == rows_view(rows@),
                members_in_range(ordered@, rows@.len()),
                paths == paths_at(table, ordered@),
                messages_view(out@) == done + set_messages(paths).take(1 + j),
            decreases ordered.len() - j,
        {
            let ghost was = messages_view(out@);
            let m = ordered[j];
            let path = rows[m].full_path.clone();
            out.push(BinDupeMessage::Entry(path));
            proof {
                assert(messages_view(out@) =~= was.push(MessageView::Entry(paths[j as int])));
            }
            j = j + 1;
        }
        k = k + 1;
    }
    out
}

} // verus!
