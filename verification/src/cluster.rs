//! Duplicate sets: the rows of an index grouped by content hash, or by the
//! distance of their perceptual hashes.
//!
//! Both searches are one pass over the rows in index order. A running list
//! of clusters is kept, each led by the first row that it met. A row joins
//! the first cluster whose leader it is close to, else it starts a cluster of
//! its own. Clusters of a single row are dropped at the end.

use vstd::prelude::*;
use crate::entry::{Entry, EntryView, rows_view};
use crate::hamming::{hamming_spec, hamming_distance, budget_spec, distance_budget, lemma_hamming};

verus! {

/// What makes two rows duplicates of each other.
#[derive(Clone, Copy, Debug, PartialEq, Eq, Structural)]
pub enum Criterion {
    /// The same content hash. Ignored rows take part only where
    /// `include_ignored` is set.
    Content { include_ignored: bool },
    /// Perceptual hashes at a Hamming distance of at most `budget`. Ignored
    /// rows never take part.
    Perceptual { budget: u32 },
}

/// Whether a row is looked at under the criterion.
pub open spec fn takes_part(c: Criterion, e: EntryView) -> bool {
    match c {
        Criterion::Content { include_ignored } => include_ignored || !e.ignored(),
        Criterion::Perceptual { budget } => !e.ignored(),
    }
}

/// Whether a row that takes part is close enough to the `leader` of a
/// cluster to join it.
pub open spec fn joins(c: Criterion, leader: EntryView, e: EntryView) -> bool {
    match c {
        Criterion::Content { include_ignored } => leader.content_hash == e.content_hash,
        Criterion::Perceptual { budget } => leader.perceptual_hash is Some && e.perceptual_hash
            is Some && hamming_spec(leader.perceptual_hash->0, e.perceptual_hash->0) <= budget,
    }
}

/// The number of the first cluster, from `from` on, whose leader `e` joins;
/// the number of clusters where there is none.
pub open spec fn first_joined(
    rows: Seq<EntryView>,
    c: Criterion,
    clusters: Seq<Seq<usize>>,
    e: EntryView,
    from: int,
) -> int
    decreases clusters.len() - from,
{
    if from < 0 || from >= clusters.len() {
        clusters.len() as int
    } else if joins(c, rows[clusters[from][0] as int], e) {
        from
    } else {
        first_joined(rows, c, clusters, e, from + 1)
    }
}

/// The clusters after row `i` was looked at.
pub open spec fn place(rows: Seq<EntryView>, c: Criterion, clusters: Seq<Seq<usize>>, i: usize) -> Seq<
    Seq<usize>,
> {
    if !takes_part(c, rows[i as int]) {
        clusters
    } else {
        let k = first_joined(rows, c, clusters, rows[i as int], 0);
        if k < clusters.len() {
            clusters.update(k, clusters[k].push(i))
        } else {
            clusters.push(seq![i])
        }
    }
}

/// The clusters after the first `n` rows were looked at, in index order.
pub open spec fn clusters_after(rows: Seq<EntryView>, c: Criterion, n: int) -> Seq<Seq<usize>>
    decreases n,
{
    if n <= 0 {
        Seq::empty()
    } else {
        place(rows, c, clusters_after(rows, c, n - 1), (n - 1) as usize)
    }
}

/// Those of the first `n` clusters that hold two rows or more.
pub open spec fn sets_among(clusters: Seq<Seq<usize>>, n: int) -> Seq<Seq<usize>>
    decreases n,
{
    if n <= 0 {
        Seq::empty()
    } else if clusters[n - 1].len() >= 2 {
        sets_among(clusters, n - 1).push(clusters[n - 1])
    } else {
        sets_among(clusters, n - 1)
    }
}

/// The duplicate sets of an index under a criterion: the clusters of all its
/// rows, without those of a single row. A set lists the numbers of its rows
/// in index order, its leader first; the sets stand in the order of their
/// leaders.
pub open spec fn duplicate_sets(rows: Seq<EntryView>, c: Criterion) -> Seq<Seq<usize>> {
    let clusters = clusters_after(rows, c, rows.len() as int);
    sets_among(clusters, clusters.len() as int)
}

/// The duplicate sets among the first `n` rows of an index: what a search
/// has found that was stopped after `n` rows.
pub open spec fn duplicate_sets_upto(rows: Seq<EntryView>, c: Criterion, n: int) -> Seq<Seq<usize>> {
    let clusters = clusters_after(rows, c, n);
    sets_among(clusters, clusters.len() as int)
}

/// Every cluster has a leader, and its members are rows already looked at.
pub open spec fn clusters_in_range(clusters: Seq<Seq<usize>>, n: int) -> bool {
    forall|k: int|
        0 <= k < clusters.len() ==> (#[trigger] clusters[k]).len() > 0 && forall|a: int|
            0 <= a < clusters[k].len() ==> (#[trigger] clusters[k][a]) < n
}

/// The clusters after `n` rows name only those rows, and none is empty.
pub proof fn lemma_clusters_in_range(rows: Seq<EntryView>, c: Criterion, n: int)
    requires
        0 <= n <= rows.len(),
        rows.len() <= usize::MAX,
    ensures
        clusters_in_range(clusters_after(rows, c, n), n),
    decreases n,
{
    if n > 0 {
        lemma_clusters_in_range(rows, c, n - 1);
        let prev = clusters_after(rows, c, n - 1);
        let i = (n - 1) as usize;
        lemma_first_joined_range(rows, c, prev, rows[i as int], 0);
    }
}

/// The first cluster that a row joins is at or after the start of the search,
/// it is one whose leader the row joins, and the row joins no leader between
/// the start and it.
pub proof fn lemma_first_joined_range(
    rows: Seq<EntryView>,
    c: Criterion,
    clusters: Seq<Seq<usize>>,
    e: EntryView,
    from: int,
)
    requires
        0 <= from <= clusters.len(),
    ensures
        from <= first_joined(rows, c, clusters, e, from) <= clusters.len(),
        first_joined(rows, c, clusters, e, from) < clusters.len() ==> joins(
            c,
            rows[clusters[first_joined(rows, c, clusters, e, from)][0] as int],
            e,
        ),
        forall|k: int|
            from <= k < first_joined(rows, c, clusters, e, from) ==> !joins(
                c,
                rows[(#[trigger] clusters[k])[0] as int],
                e,
            ),
    decreases clusters.len() - from,
{
    if from < clusters.len() && !joins(c, rows[clusters[from][0] as int], e) {
        lemma_first_joined_range(rows, c, clusters, e, from + 1);
    }
}

/// Row `i` is a member of one of the sets.
pub open spec fn in_some_set(sets: Seq<Seq<usize>>, i: usize) -> bool {
    exists|k: int| 0 <= k < sets.len() && (#[trigger] sets[k]).contains(i)
}

/// The members of every set are rows that take part, and each of them but
/// the first joins the first, the leader.
pub open spec fn members_join_leader(
    rows: Seq<EntryView>,
    c: Criterion,
    sets: Seq<Seq<usize>>,
) -> bool {
    forall|k: int, a: int|
        0 <= k < sets.len() && 0 <= a < sets[k].len() ==> (#[trigger] sets[k][a]) < rows.len()
            && takes_part(c, rows[sets[k][a] as int]) && (a > 0 ==> joins(
            c,
            rows[sets[k][0] as int],
            rows[sets[k][a] as int],
        ))
}

/// The members of every set stand in index order.
pub open spec fn members_ascend(sets: Seq<Seq<usize>>) -> bool {
    forall|k: int, a: int, b: int|
        0 <= k < sets.len() && 0 <= a < b < sets[k].len() ==> (#[trigger] sets[k][a]) < (
        #[trigger] sets[k][b])
}

/// No member of a set joins the leader of an earlier set.
pub open spec fn none_joins_earlier(rows: Seq<EntryView>, c: Criterion, sets: Seq<Seq<usize>>) -> bool {
    forall|l: int, k: int, a: int|
        0 <= l < k < sets.len() && 0 <= a < sets[k].len() ==> !joins(
            c,
            rows[(#[trigger] sets[l])[0] as int],
            rows[(#[trigger] sets[k][a]) as int],
        )
}

/// The sets stand in the order of their leaders.
pub open spec fn leaders_ascend(sets: Seq<Seq<usize>>) -> bool {
    forall|k: int, l: int|
        0 <= k < l < sets.len() ==> (#[trigger] sets[k])[0] < (#[trigger] sets[l])[0]
}

/// No row is in two sets.
pub open spec fn sets_disjoint(sets: Seq<Seq<usize>>) -> bool {
    forall|k: int, l: int, a: int, b: int|
        0 <= k < sets.len() && 0 <= l < sets.len() && 0 <= a < sets[k].len() && 0 <= b
            < sets[l].len() && (#[trigger] sets[k][a]) == (#[trigger] sets[l][b]) ==> k == l
}

/// No set is empty.
pub open spec fn sets_have_leaders(sets: Seq<Seq<usize>>) -> bool {
    forall|k: int| 0 <= k < sets.len() ==> (#[trigger] sets[k]).len() > 0
}

/// The sets are led by their first rows: every set has a leader, its members
/// are rows that take part, in index order, and each of them but the leader
/// joins the leader; no member of a set joins the leader of an earlier set;
/// the sets stand in the order of their leaders, and no row is in two sets.
pub open spec fn is_led(rows: Seq<EntryView>, c: Criterion, sets: Seq<Seq<usize>>) -> bool {
    &&& sets_have_leaders(sets)
    &&& members_join_leader(rows, c, sets)
    &&& members_ascend(sets)
    &&& none_joins_earlier(rows, c, sets)
    &&& leaders_ascend(sets)
    &&& sets_disjoint(sets)
}

/// Every one of the first `n` rows that takes part is in a cluster.
pub open spec fn covers(rows: Seq<EntryView>, c: Criterion, clusters: Seq<Seq<usize>>, n: int) -> bool {
    forall|i: int|
        0 <= i < n && takes_part(c, #[trigger] rows[i]) ==> in_some_set(clusters, i as usize)
}

/// How the clusters change when row `i` is placed: what was there stays
/// where it was, and what is new is row `i` alone, in cluster `j`.
spec fn grows_by(prev: Seq<Seq<usize>>, next: Seq<Seq<usize>>, i: usize, j: int) -> bool {
    &&& prev.len() <= next.len() <= prev.len() + 1
    &&& 0 <= j <= prev.len()
    &&& forall|k: int| 0 <= k < prev.len() ==> prev[k].len() <= (#[trigger] next[k]).len()
    &&& forall|k: int, a: int|
        0 <= k < next.len() && 0 <= a < next[k].len() ==> if k < prev.len() && a < prev[k].len() {
            (#[trigger] next[k][a]) == prev[k][a]
        } else {
            next[k][a] == i && k == j
        }
}

proof fn lemma_place_grows(rows: Seq<EntryView>, c: Criterion, prev: Seq<Seq<usize>>, i: usize)
    requires
        i < rows.len(),
        takes_part(c, rows[i as int]),
        sets_have_leaders(prev),
    ensures
        grows_by(
            prev,
            place(rows, c, prev, i),
            i,
            first_joined(rows, c, prev, rows[i as int], 0),
        ),
        sets_have_leaders(place(rows, c, prev, i)),
        in_some_set(place(rows, c, prev, i), i),
{
    let next = place(rows, c, prev, i);
    let j = first_joined(rows, c, prev, rows[i as int], 0);
    lemma_first_joined_range(rows, c, prev, rows[i as int], 0);
    if j < prev.len() {
        assert(next[j][prev[j].len() as int] == i);
    } else {
        assert(next[prev.len() as int][0] == i);
    }
}

proof fn lemma_members_join_leader(rows: Seq<EntryView>, c: Criterion, n: int)
    requires
        0 <= n <= rows.len(),
        rows.len() <= usize::MAX,
    ensures
        members_join_leader(rows, c, clusters_after(rows, c, n)),
        members_ascend(clusters_after(rows, c, n)),
        leaders_ascend(clusters_after(rows, c, n)),
    decreases n,
{
    if n > 0 {
        lemma_members_join_leader(rows, c, n - 1);
        lemma_clusters_in_range(rows, c, n - 1);
        let prev = clusters_after(rows, c, n - 1);
        let i = (n - 1) as usize;
        if takes_part(c, rows[i as int]) {
            lemma_first_joined_range(rows, c, prev, rows[i as int], 0);
        }
    }
}

proof fn lemma_none_joins_earlier(rows: Seq<EntryView>, c: Criterion, n: int)
    requires
        0 <= n <= rows.len(),
        rows.len() <= usize::MAX,
    ensures
        none_joins_earlier(rows, c, clusters_after(rows, c, n)),
    decreases n,
{
    if n > 0 {
        lemma_none_joins_earlier(rows, c, n - 1);
        lemma_clusters_in_range(rows, c, n - 1);
        let prev = clusters_after(rows, c, n - 1);
        let i = (n - 1) as usize;
        if takes_part(c, rows[i as int]) {
            lemma_first_joined_range(rows, c, prev, rows[i as int], 0);
        }
    }
}

proof fn lemma_covers(rows: Seq<EntryView>, c: Criterion, n: int)
    requires
        0 <= n <= rows.len(),
        rows.len() <= usize::MAX,
    ensures
        covers(rows, c, clusters_after(rows, c, n), n),
    decreases n,
{
    if n > 0 {
        lemma_covers(rows, c, n - 1);
        lemma_clusters_in_range(rows, c, n - 1);
        let prev = clusters_after(rows, c, n - 1);
        let i = (n - 1) as usize;
        let next = place(rows, c, prev, i);
        if takes_part(c, rows[i as int]) {
            lemma_place_grows(rows, c, prev, i);
        }
        assert forall|m: int| 0 <= m < n && takes_part(c, #[trigger] rows[m]) implies in_some_set(
            next,
            m as usize,
        ) by {
            if m < n - 1 {
                if takes_part(c, rows[i as int]) {
                    let k = choose|k: int| 0 <= k < prev.len() && (#[trigger] prev[k]).contains(
                        m as usize,
                    );
                    let a = choose|a: int| 0 <= a < prev[k].len() && prev[k][a] == m as usize;
                    assert(next[k][a] == m as usize);
                }
            }
        }
    }
}

/// The clusters after `n` rows are led by their first rows, and every one of
/// those rows that takes part is in one of them.
pub proof fn lemma_clusters_are_led(rows: Seq<EntryView>, c: Criterion, n: int)
    requires
        0 <= n <= rows.len(),
        rows.len() <= usize::MAX,
    ensures
        is_led(rows, c, clusters_after(rows, c, n)),
        clusters_in_range(clusters_after(rows, c, n), n),
        covers(rows, c, clusters_after(rows, c, n), n),
{
    lemma_clusters_in_range(rows, c, n);
    lemma_members_join_leader(rows, c, n);
    lemma_none_joins_earlier(rows, c, n);
    lemma_covers(rows, c, n);
}

/// The cluster from which set `t` of the first `n` clusters was taken.
pub open spec fn source_of(clusters: Seq<Seq<usize>>, n: int, t: int) -> int
    decreases n,
{
    if n <= 0 {
        0
    } else if clusters[n - 1].len() >= 2 && t == sets_among(clusters, n - 1).len() {
        n - 1
    } else {
        source_of(clusters, n - 1, t)
    }
}

/// The sets among the first `n` clusters are the clusters of two rows or
/// more, in their order: each set is the cluster that `source_of` names, a
/// later set comes from a later cluster, and every such cluster is a set.
pub proof fn lemma_sets_among(clusters: Seq<Seq<usize>>, n: int)
    requires
        0 <= n <= clusters.len(),
    ensures
        sets_among(clusters, n).len() <= n,
        forall|t: int|
            0 <= t < sets_among(clusters, n).len() ==> 0 <= #[trigger] source_of(clusters, n, t)
                < n && sets_among(clusters, n)[t] == clusters[source_of(clusters, n, t)]
                && clusters[source_of(clusters, n, t)].len() >= 2,
        forall|t: int, u: int|
            0 <= t < u < sets_among(clusters, n).len() ==> #[trigger] source_of(clusters, n, t)
                < #[trigger] source_of(clusters, n, u),
        forall|k: int|
            0 <= k < n && (#[trigger] clusters[k]).len() >= 2 ==> sets_among(clusters, k).len()
                < sets_among(clusters, n).len() && source_of(
                clusters,
                n,
                sets_among(clusters, k).len() as int,
            ) == k,
    decreases n,
{
    if n > 0 {
        lemma_sets_among(clusters, n - 1);
        let prev = sets_among(clusters, n - 1);
        let now = sets_among(clusters, n);
        assert forall|t: int| 0 <= t < now.len() implies 0 <= #[trigger] source_of(clusters, n, t)
            < n && now[t] == clusters[source_of(clusters, n, t)] && clusters[source_of(
            clusters,
            n,
            t,
        )].len() >= 2 by {
            if t < prev.len() {
                assert(source_of(clusters, n, t) == source_of(clusters, n - 1, t));
            }
        }
        assert forall|t: int, u: int| 0 <= t < u < now.len() implies #[trigger] source_of(
            clusters,
            n,
            t,
        ) < #[trigger] source_of(clusters, n, u) by {
            assert(source_of(clusters, n, t) == source_of(clusters, n - 1, t));
            if u < prev.len() {
                assert(source_of(clusters, n, u) == source_of(clusters, n - 1, u));
            }
        }
    }
}

/// The duplicate sets of an index are led by their first rows, under every
/// criterion: each holds two rows or more, all of which take part and join
/// the first, and none of which joins the leader of an earlier set.
pub proof fn lemma_duplicate_sets_are_led(rows: Seq<EntryView>, c: Criterion)
    requires
        rows.len() <= usize::MAX,
    ensures
        is_led(rows, c, duplicate_sets(rows, c)),
        forall|k: int|
            0 <= k < duplicate_sets(rows, c).len() ==> (#[trigger] duplicate_sets(
                rows,
                c,
            )[k]).len() >= 2,
{
    let n = rows.len() as int;
    let clusters = clusters_after(rows, c, n);
    let count = clusters.len() as int;
    let sets = sets_among(clusters, count);
    lemma_clusters_are_led(rows, c, n);
    lemma_sets_among(clusters, count);
    // every set is one of the clusters, and a later set is a later cluster
    assert forall|k: int| 0 <= k < sets.len() implies (#[trigger] sets[k]).len() >= 2 by {
        assert(sets[k] == clusters[source_of(clusters, count, k)]);
    }
    assert forall|k: int, a: int| 0 <= k < sets.len() && 0 <= a < sets[k].len() implies (
    #[trigger] sets[k][a]) < rows.len() && takes_part(c, rows[sets[k][a] as int]) && (a > 0
        ==> joins(c, rows[sets[k][0] as int], rows[sets[k][a] as int])) by {
        assert(sets[k] == clusters[source_of(clusters, count, k)]);
    }
    assert forall|k: int, a: int, b: int|
        0 <= k < sets.len() && 0 <= a < b < sets[k].len() implies (#[trigger] sets[k][a]) < (
    #[trigger] sets[k][b]) by {
        assert(sets[k] == clusters[source_of(clusters, count, k)]);
    }
    assert forall|l: int, k: int, a: int|
        0 <= l < k < sets.len() && 0 <= a < sets[k].len() implies !joins(
        c,
        rows[(#[trigger] sets[l])[0] as int],
        rows[(#[trigger] sets[k][a]) as int],
    ) by {
        assert(source_of(clusters, count, l) < source_of(clusters, count, k));
    }
    assert forall|k: int, l: int| 0 <= k < l < sets.len() implies (#[trigger] sets[k])[0] < (
    #[trigger] sets[l])[0] by {
        assert(source_of(clusters, count, k) < source_of(clusters, count, l));
    }
}

/// Whether `e` takes part under the criterion.
pub fn row_takes_part(c: Criterion, e: &Entry) -> (b: bool)
    ensures
        b == takes_part(c, e@),
{
    match c {
        Criterion::Content { include_ignored } => include_ignored || !e.ignored(),
        Criterion::Perceptual { budget } => !e.ignored(),
    }
}

/// Whether `e` is close enough to `leader` to join its cluster.
pub fn row_joins(c: Criterion, leader: &Entry, e: &Entry) -> (b: bool)
    ensures
        b == joins(c, leader@, e@),
{
    match c {
        Criterion::Content { include_ignored } => leader.content_hash == e.content_hash,
        Criterion::Perceptual { budget } => match (&leader.perceptual_hash, &e.perceptual_hash) {
            (Some(x), Some(y)) => hamming_distance(x, y) <= budget,
            _ => false,
        },
    }
}

/// Looks at row `i`: it joins the first cluster whose leader it is close to,
/// or starts a new one, or is passed over where it does not take part. This
/// is one unit of the search; a caller that wants to stop between units
/// calls it row by row.
pub fn place_row(rows: &Vec<Entry>, c: Criterion, clusters: &mut Vec<Vec<usize>>, i: usize)
    requires
        i < rows@.len(),
        clusters_in_range(old(clusters).deep_view(), i as int),
    ensures
        final(clusters).deep_view() == place(
            rows_view(rows@),
            c,
            old(clusters).deep_view(),
            i,
        ),
{
    let ghost table = rows_view(rows@);
    let ghost before = clusters.deep_view();
    if !row_takes_part(c, &rows[i]) {
        return ;
    }
    let mut k: usize = 0;
    while k < clusters.len() && !row_joins(c, &rows[clusters[k][0]], &rows[i])
        invariant
            k <= clusters.len(),
            i < rows@.len(),
            table == rows_view(rows@),
            before == clusters.deep_view(),
            clusters_in_range(before, i as int),
            first_joined(table, c, before, table[i as int], 0) == first_joined(
                table,
                c,
                before,
                table[i as int],
                k as int,
            ),
        decreases clusters.len() - k,
    {
        k = k + 1;
    }
    if k < clusters.len() {
        clusters[k].push(i);
        proof {
            let after = clusters.deep_view();
            let want = before.update(k as int, before[k as int].push(i));
            assert forall|j: int| 0 <= j < after.len() implies after[j] == want[j] by {}
        }
    } else {
        let mut fresh: Vec<usize> = Vec::new();
        fresh.push(i);
        clusters.push(fresh);
        proof {
            let after = clusters.deep_view();
            let want = before.push(seq![i]);
            assert forall|j: int| 0 <= j < after.len() implies after[j] == want[j] by {}
        }
    }
}

/// The duplicate sets of `rows` under the criterion.
pub fn cluster_rows(rows: &Vec<Entry>, c: Criterion) -> (sets: Vec<Vec<usize>>)
    ensures
        sets.deep_view() == duplicate_sets(rows_view(rows@), c),
{
    let ghost table = rows_view(rows@);
    let mut clusters: Vec<Vec<usize>> = Vec::new();
    let mut i: usize = 0;
    while i < rows.len()
        invariant
            i <= rows.len(),
            table == rows_view(rows@),
            clusters.deep_view() == clusters_after(table, c, i as int),
        decreases rows.len() - i,
    {
        proof {
            lemma_clusters_in_range(table, c, i as int);
        }
        place_row(rows, c, &mut clusters, i);
        i = i + 1;
    }
    sets_of(&clusters)
}

/// Those of the clusters that hold two rows or more.
pub fn sets_of(clusters: &Vec<Vec<usize>>) -> (sets: Vec<Vec<usize>>)
    ensures
        sets.deep_view() == sets_among(clusters.deep_view(), clusters@.len() as int),
{
    let ghost all = clusters.deep_view();
    let mut sets: Vec<Vec<usize>> = Vec::new();
    let mut k: usize = 0;
    while k < clusters.len()
        invariant
            k <= clusters.len(),
            all == clusters.deep_view(),
            sets.deep_view() == sets_among(all, k as int),
        decreases clusters.len() - k,
    {
        if clusters[k].len() >= 2 {
            let set = copy_numbers(&clusters[k]);
            sets.push(set);
        }
        k = k + 1;
    }
    sets
}

/// A copy of a list of row numbers.
fn copy_numbers(v: &Vec<usize>) -> (r: Vec<usize>)
    ensures
        r@ == v@,
{
    let mut r: Vec<usize> = Vec::new();
    let mut i: usize = 0;
    while i < v.len()
        invariant
            i <= v.len(),
            r@ == v@.take(i as int),
        decreases v.len() - i,
    {
        r.push(v[i]);
        i = i + 1;
    }
    r
}

/// A search for duplicates that goes row by row, so that it can be stopped
/// between two rows. It holds the rows of the index, the criterion, and the
/// clusters of the rows that it has looked at.
pub struct ClusterScan {
    rows: Vec<Entry>,
    criterion: Criterion,
    clusters: Vec<Vec<usize>>,
    seen: usize,
}

impl ClusterScan {
    #[verifier::type_invariant]
    spec fn well_formed(self) -> bool {
        &&& self.seen <= self.rows@.len()
        &&& self.clusters.deep_view() == clusters_after(
            rows_view(self.rows@),
            self.criterion,
            self.seen as int,
        )
    }

    /// The rows that are searched.
    pub closed spec fn table(self) -> Seq<EntryView> {
        rows_view(self.rows@)
    }

    /// The criterion of the search.
    pub closed spec fn criterion(self) -> Criterion {
        self.criterion
    }

    /// The number of rows that were looked at.
    pub closed spec fn seen(self) -> nat {
        self.seen as nat
    }

    /// A search over `rows` that has looked at no row yet.
    pub fn new(rows: Vec<Entry>, criterion: Criterion) -> (scan: ClusterScan)
        ensures
            scan.table() == rows_view(rows@),
            scan.criterion() == criterion,
            scan.seen() == 0,
    {
        let clusters: Vec<Vec<usize>> = Vec::new();
        assert(clusters.deep_view() =~= clusters_after(rows_view(rows@), criterion, 0));
        ClusterScan { rows, criterion, clusters, seen: 0 }
    }

    /// The rows that are searched.
    pub fn rows(&self) -> (rows: &Vec<Entry>)
        ensures
            rows_view(rows@) == self.table(),
    {
        &self.rows
    }

    /// Whether every row was looked at.
    pub fn is_done(&self) -> (done: bool)
        ensures
            done == (self.seen() >= self.table().len()),
    {
        proof {
            use_type_invariant(self);
        }
        self.seen >= self.rows.len()
    }

    /// Looks at the next row, if there is one left, and gives the search
    /// after it.
    pub fn step(self) -> (next: ClusterScan)
        ensures
            next.table() == self.table(),
            next.criterion() == self.criterion(),
            next.seen() == if self.seen() < self.table().len() {
                self.seen() + 1
            } else {
                self.seen()
            },
    {
        proof {
            use_type_invariant(&self);
        }
        let ClusterScan { rows, criterion, mut clusters, seen } = self;
        if seen >= rows.len() {
            return ClusterScan { rows, criterion, clusters, seen };
        }
        proof {
            lemma_clusters_in_range(rows_view(rows@), criterion, seen as int);
        }
        place_row(&rows, criterion, &mut clusters, seen);
        ClusterScan { rows, criterion, clusters, seen: seen + 1 }
    }

    /// The duplicate sets among the rows that were looked at. After the
    /// last row they are the duplicate sets of the index.
    pub fn sets(&self) -> (sets: Vec<Vec<usize>>)
        ensures
            sets.deep_view() == duplicate_sets_upto(
                self.table(),
                self.criterion(),
                self.seen() as int,
            ),
            self.seen() >= self.table().len() ==> sets.deep_view() == duplicate_sets(
                self.table(),
                self.criterion(),
            ),
    {
        proof {
            use_type_invariant(self);
        }
        sets_of(&self.clusters)
    }
}

} // verus!
