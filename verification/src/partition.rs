//! What the duplicate sets are where being close is being equal: under the
//! content criterion, and under the perceptual criterion with a budget of 0,
//! the sets are the classes of rows with the same hash, whatever the order of
//! the rows.

use vstd::prelude::*;
use crate::entry::EntryView;
use crate::cluster::{
    Criterion,
    takes_part,
    joins,
    clusters_after,
    sets_among,
    source_of,
    duplicate_sets,
    clusters_in_range,
    covers,
    in_some_set,
    lemma_clusters_are_led,
    lemma_duplicate_sets_are_led,
    lemma_sets_among,
};
use crate::hamming::lemma_hamming;
use crate::policy::{entries_at, distinct_paths};

verus! {

/// The criteria under which a row joins a cluster exactly when it has the
/// hash of its leader.
pub open spec fn groups_by_equality(c: Criterion) -> bool {
    match c {
        Criterion::Content { include_ignored } => true,
        Criterion::Perceptual { budget } => budget == 0,
    }
}

/// Two rows have the same hash, of the kind that the criterion looks at.
pub open spec fn same_key(c: Criterion, a: EntryView, b: EntryView) -> bool {
    match c {
        Criterion::Content { include_ignored } => a.content_hash == b.content_hash,
        Criterion::Perceptual { budget } => a.perceptual_hash == b.perceptual_hash,
    }
}

/// Under a criterion that groups by equality, a row that takes part joins a
/// leader that takes part exactly when the two have the same hash.
pub proof fn lemma_joins_is_same_key(c: Criterion, a: EntryView, b: EntryView)
    requires
        groups_by_equality(c),
        takes_part(c, a),
        takes_part(c, b),
    ensures
        joins(c, a, b) <==> same_key(c, a, b),
{
    match c {
        Criterion::Content { include_ignored } => {},
        Criterion::Perceptual { budget } => {
            lemma_hamming(a.perceptual_hash->0, b.perceptual_hash->0);
        },
    }
}

/// The sets are the classes of rows with the same hash:
/// every set holds two rows or more, all of which take part and have the
/// hash of the first, in index order; a set holds every row that takes part
/// and has its hash; every row that takes part and shares its hash with
/// another such row is in a set; and the sets stand in the order of their
/// first rows.
#[verifier::opaque]
pub open spec fn groups_by_key(rows: Seq<EntryView>, c: Criterion, sets: Seq<Seq<usize>>) -> bool {
    &&& forall|k: int| 0 <= k < sets.len() ==> (#[trigger] sets[k]).len() >= 2
    &&& forall|k: int, a: int|
        0 <= k < sets.len() && 0 <= a < sets[k].len() ==> (#[trigger] sets[k][a]) < rows.len()
            && takes_part(c, rows[sets[k][a] as int]) && same_key(
            c,
            rows[sets[k][0] as int],
            rows[sets[k][a] as int],
        )
    &&& forall|k: int, a: int, b: int|
        0 <= k < sets.len() && 0 <= a < b < sets[k].len() ==> (#[trigger] sets[k][a]) < (
        #[trigger] sets[k][b])
    &&& forall|k: int, i: int|
        0 <= k < sets.len() && 0 <= i < rows.len() && takes_part(c, #[trigger] rows[i])
            && same_key(c, rows[sets[k][0] as int], rows[i]) ==> (#[trigger] sets[k]).contains(
            i as usize,
        )
    &&& forall|i: int, j: int|
        0 <= i < rows.len() && 0 <= j < rows.len() && i != j && takes_part(c, #[trigger] rows[i])
            && takes_part(c, #[trigger] rows[j]) && same_key(c, rows[i], rows[j]) ==> in_some_set(
            sets,
            i as usize,
        )
    &&& forall|k: int, l: int|
        0 <= k < l < sets.len() ==> (#[trigger] sets[k])[0] < (#[trigger] sets[l])[0]
}

/// What holds of the clusters after all rows under a criterion that groups
/// by equality: they are the classes of the rows by hash.
spec fn is_classes(rows: Seq<EntryView>, c: Criterion, clusters: Seq<Seq<usize>>) -> bool {
    &&& clusters_in_range(clusters, rows.len() as int)
    &&& forall|k: int, a: int|
        0 <= k < clusters.len() && 0 <= a < clusters[k].len() ==> takes_part(
            c,
            rows[(#[trigger] clusters[k][a]) as int],
        ) && same_key(c, rows[clusters[k][0] as int], rows[clusters[k][a] as int])
    &&& forall|k: int, a: int, b: int|
        0 <= k < clusters.len() && 0 <= a < b < clusters[k].len() ==> (#[trigger] clusters[k][a])
            < (#[trigger] clusters[k][b])
    &&& forall|k: int, l: int|
        0 <= k < clusters.len() && 0 <= l < clusters.len() && k != l ==> !same_key(
            c,
            rows[(#[trigger] clusters[k])[0] as int],
            rows[(#[trigger] clusters[l])[0] as int],
        )
    &&& covers(rows, c, clusters, rows.len() as int)
    &&& forall|k: int, l: int|
        0 <= k < l < clusters.len() ==> (#[trigger] clusters[k])[0] < (#[trigger] clusters[l])[0]
}

proof fn lemma_clusters_are_classes(rows: Seq<EntryView>, c: Criterion)
    requires
        groups_by_equality(c),
        rows.len() <= usize::MAX,
    ensures
        is_classes(rows, c, clusters_after(rows, c, rows.len() as int)),
{
    let clusters = clusters_after(rows, c, rows.len() as int);
    lemma_clusters_are_led(rows, c, rows.len() as int);
    assert forall|k: int, a: int|
        0 <= k < clusters.len() && 0 <= a < clusters[k].len() implies takes_part(
        c,
        rows[(#[trigger] clusters[k][a]) as int],
    ) && same_key(c, rows[clusters[k][0] as int], rows[clusters[k][a] as int]) by {
        lemma_joins_is_same_key(c, rows[clusters[k][0] as int], rows[clusters[k][a] as int]);
    }
    assert forall|k: int, l: int|
        0 <= k < clusters.len() && 0 <= l < clusters.len() && k != l implies !same_key(
        c,
        rows[(#[trigger] clusters[k])[0] as int],
        rows[(#[trigger] clusters[l])[0] as int],
    ) by {
        // the later of two leaders did not join the earlier one
        lemma_joins_is_same_key(c, rows[clusters[k][0] as int], rows[clusters[l][0] as int]);
    }
}

/// The members of the duplicate sets, under a criterion that groups by
/// equality: rows that take part and have the hash of the first member.
proof fn lemma_sets_hold_one_key(rows: Seq<EntryView>, c: Criterion)
    requires
        groups_by_equality(c),
        rows.len() <= usize::MAX,
    ensures
        forall|k: int|
            0 <= k < duplicate_sets(rows, c).len() ==> (#[trigger] duplicate_sets(
                rows,
                c,
            )[k]).len() >= 2,
        forall|k: int, a: int|
            0 <= k < duplicate_sets(rows, c).len() && 0 <= a < duplicate_sets(rows, c)[k].len()
                ==> (#[trigger] duplicate_sets(rows, c)[k][a]) < rows.len() && takes_part(
                c,
                rows[duplicate_sets(rows, c)[k][a] as int],
            ) && same_key(
                c,
                rows[duplicate_sets(rows, c)[k][0] as int],
                rows[duplicate_sets(rows, c)[k][a] as int],
            ),
{
    let sets = duplicate_sets(rows, c);
    lemma_duplicate_sets_are_led(rows, c);
    assert forall|k: int, a: int| 0 <= k < sets.len() && 0 <= a < sets[k].len() implies (
    #[trigger] sets[k][a]) < rows.len() && takes_part(c, rows[sets[k][a] as int]) && same_key(
        c,
        rows[sets[k][0] as int],
        rows[sets[k][a] as int],
    ) by {
        assert(sets[k][0] < rows.len());
        lemma_joins_is_same_key(c, rows[sets[k][0] as int], rows[sets[k][a] as int]);
    }
}

/// A row that takes part and has the hash of a duplicate set is a member of
/// the set, under a criterion that groups by equality.
proof fn lemma_sets_are_whole(rows: Seq<EntryView>, c: Criterion, k: int, i: int)
    requires
        groups_by_equality(c),
        rows.len() <= usize::MAX,
        0 <= k < duplicate_sets(rows, c).len(),
        0 <= i < rows.len(),
        takes_part(c, rows[i]),
        duplicate_sets(rows, c)[k].len() > 0,
        same_key(c, rows[duplicate_sets(rows, c)[k][0] as int], rows[i]),
    ensures
        duplicate_sets(rows, c)[k].contains(i as usize),
{
    let clusters = clusters_after(rows, c, rows.len() as int);
    let count = clusters.len() as int;
    lemma_clusters_are_classes(rows, c);
    lemma_sets_among(clusters, count);
    let s = source_of(clusters, count, k);
    assert(duplicate_sets(rows, c)[k] == clusters[s]);
    // row i is in a cluster, whose leader has the hash of the leader of the set
    let l = choose|l: int| 0 <= l < clusters.len() && (#[trigger] clusters[l]).contains(i as usize);
    let a = choose|a: int| 0 <= a < clusters[l].len() && clusters[l][a] == i as usize;
    assert(same_key(c, rows[clusters[l][0] as int], rows[clusters[l][a] as int]));
    assert(l == s);
}

/// Two rows that take part and have the same hash are in a duplicate set,
/// under a criterion that groups by equality.
proof fn lemma_shared_key_is_found(rows: Seq<EntryView>, c: Criterion, i: int, j: int)
    requires
        groups_by_equality(c),
        rows.len() <= usize::MAX,
        0 <= i < rows.len(),
        0 <= j < rows.len(),
        i != j,
        takes_part(c, rows[i]),
        takes_part(c, rows[j]),
        same_key(c, rows[i], rows[j]),
    ensures
        in_some_set(duplicate_sets(rows, c), i as usize),
{
    let clusters = clusters_after(rows, c, rows.len() as int);
    let count = clusters.len() as int;
    let sets = duplicate_sets(rows, c);
    lemma_clusters_are_classes(rows, c);
    lemma_sets_among(clusters, count);
    // the two rows are in one cluster, which is a set for having two rows
    let k = choose|k: int| 0 <= k < clusters.len() && (#[trigger] clusters[k]).contains(i as usize);
    let a = choose|a: int| 0 <= a < clusters[k].len() && clusters[k][a] == i as usize;
    let l = choose|l: int| 0 <= l < clusters.len() && (#[trigger] clusters[l]).contains(j as usize);
    let b = choose|b: int| 0 <= b < clusters[l].len() && clusters[l][b] == j as usize;
    assert(same_key(c, rows[clusters[k][0] as int], rows[clusters[k][a] as int]));
    assert(same_key(c, rows[clusters[l][0] as int], rows[clusters[l][b] as int]));
    assert(k == l);
    assert(a != b);
    let t = sets_among(clusters, k).len() as int;
    assert(source_of(clusters, count, t) == k);
    assert(sets[t] == clusters[k]);
    assert(sets[t].contains(i as usize));
}

/// Under a criterion that groups by equality, the duplicate sets of an index
/// are the classes of its rows by hash.
pub proof fn lemma_duplicate_sets_group_by_key(rows: Seq<EntryView>, c: Criterion)
    requires
        groups_by_equality(c),
        rows.len() <= usize::MAX,
    ensures
        groups_by_key(rows, c, duplicate_sets(rows, c)),
{
    let sets = duplicate_sets(rows, c);
    lemma_duplicate_sets_are_led(rows, c);
    lemma_sets_hold_one_key(rows, c);
    assert forall|k: int, i: int|
        0 <= k < sets.len() && 0 <= i < rows.len() && takes_part(c, #[trigger] rows[i])
            && same_key(c, rows[sets[k][0] as int], rows[i]) implies (#[trigger] sets[k]).contains(
        i as usize,
    ) by {
        lemma_sets_are_whole(rows, c, k, i);
    }
    assert forall|i: int, j: int|
        0 <= i < rows.len() && 0 <= j < rows.len() && i != j && takes_part(c, #[trigger] rows[i])
            && takes_part(c, #[trigger] rows[j]) && same_key(
            c,
            rows[i],
            rows[j],
        ) implies in_some_set(sets, i as usize) by {
        lemma_shared_key_is_found(rows, c, i, j);
    }
    reveal(groups_by_key);
}

/// What grouping by hash says of a set: it holds two rows or more.
pub proof fn lemma_group_size(rows: Seq<EntryView>, c: Criterion, sets: Seq<Seq<usize>>, k: int)
    requires
        groups_by_key(rows, c, sets),
        0 <= k < sets.len(),
    ensures
        sets[k].len() >= 2,
{
    reveal(groups_by_key);
}

/// What grouping by hash says of a member of a set: it is a row that takes
/// part and has the hash of the first member, and it stands after the
/// members before it.
pub proof fn lemma_group_member(
    rows: Seq<EntryView>,
    c: Criterion,
    sets: Seq<Seq<usize>>,
    k: int,
    a: int,
)
    requires
        groups_by_key(rows, c, sets),
        0 <= k < sets.len(),
        0 <= a < sets[k].len(),
    ensures
        sets[k][a] < rows.len(),
        takes_part(c, rows[sets[k][a] as int]),
        same_key(c, rows[sets[k][0] as int], rows[sets[k][a] as int]),
        forall|b: int| 0 <= b < a ==> sets[k][b] < sets[k][a],
{
    reveal(groups_by_key);
}

/// What grouping by hash says of a row that takes part and has the hash of a
/// set: it is a member of the set.
pub proof fn lemma_group_holds(
    rows: Seq<EntryView>,
    c: Criterion,
    sets: Seq<Seq<usize>>,
    k: int,
    i: int,
)
    requires
        groups_by_key(rows, c, sets),
        0 <= k < sets.len(),
        0 <= i < rows.len(),
        takes_part(c, rows[i]),
        same_key(c, rows[sets[k][0] as int], rows[i]),
    ensures
        sets[k].contains(i as usize),
{
    reveal(groups_by_key);
}

/// What grouping by hash says of two rows that take part and have the same
/// hash: each of them is a member of a set.
pub proof fn lemma_shared_key_is_grouped(
    rows: Seq<EntryView>,
    c: Criterion,
    sets: Seq<Seq<usize>>,
    i: int,
    j: int,
)
    requires
        groups_by_key(rows, c, sets),
        0 <= i < rows.len(),
        0 <= j < rows.len(),
        i != j,
        takes_part(c, rows[i]),
        takes_part(c, rows[j]),
        same_key(c, rows[i], rows[j]),
    ensures
        in_some_set(sets, i as usize),
{
    reveal(groups_by_key);
}

/// Two sequences that hold the same rows have the same length, and a row
/// is in the one exactly when it is in the other.
proof fn lemma_same_rows(rows: Seq<EntryView>, shuffled: Seq<EntryView>)
    requires
        rows.to_multiset() == shuffled.to_multiset(),
    ensures
        rows.len() == shuffled.len(),
        forall|x: EntryView| rows.contains(x) <==> shuffled.contains(x),
{
    rows.to_multiset_ensures();
    shuffled.to_multiset_ensures();
    assert forall|x: EntryView| rows.contains(x) <==> shuffled.contains(x) by {
        assert(rows.contains(x) <==> rows.to_multiset().count(x) > 0);
        assert(shuffled.contains(x) <==> shuffled.to_multiset().count(x) > 0);
    }
}

/// Every row of a set of the one index is a row of the set of the other
/// index that holds a row with the same hash.
proof fn lemma_set_within(
    rows: Seq<EntryView>,
    shuffled: Seq<EntryView>,
    c: Criterion,
    sets: Seq<Seq<usize>>,
    other: Seq<Seq<usize>>,
    k: int,
    l: int,
)
    requires
        forall|x: EntryView| rows.contains(x) ==> shuffled.contains(x),
        shuffled.len() <= usize::MAX,
        groups_by_key(rows, c, sets),
        groups_by_key(shuffled, c, other),
        0 <= k < sets.len(),
        0 <= l < other.len(),
        same_key(c, rows[sets[k][0] as int], shuffled[other[l][0] as int]),
    ensures
        forall|x: EntryView|
            entries_at(rows, sets[k]).contains(x) ==> entries_at(shuffled, other[l]).contains(x),
{
    let left = entries_at(rows, sets[k]);
    let right = entries_at(shuffled, other[l]);
    assert forall|x: EntryView| left.contains(x) implies right.contains(x) by {
        let a = choose|a: int| 0 <= a < left.len() && left[a] == x;
        lemma_group_member(rows, c, sets, k, a);
        assert(x == rows[sets[k][a] as int]);
        assert(rows.contains(x));
        let m = choose|m: int| 0 <= m < shuffled.len() && shuffled[m] == x;
        lemma_group_holds(shuffled, c, other, l, m);
        let b = choose|b: int| 0 <= b < other[l].len() && other[l][b] == m as usize;
        assert(right[b] == x);
    }
}

/// The classes by hash do not depend on the order of the rows: where two
/// indexes hold the same rows, no two of them with the same path, every set
/// of the one holds the same rows as some set of the other.
pub proof fn lemma_groups_independent_of_order(
    rows: Seq<EntryView>,
    shuffled: Seq<EntryView>,
    c: Criterion,
    sets: Seq<Seq<usize>>,
    other: Seq<Seq<usize>>,
    k: int,
)
    requires
        rows.to_multiset() == shuffled.to_multiset(),
        distinct_paths(rows),
        rows.len() <= usize::MAX,
        groups_by_key(rows, c, sets),
        groups_by_key(shuffled, c, other),
        0 <= k < sets.len(),
    ensures
        exists|l: int|
            0 <= l < other.len() && entries_at(shuffled, #[trigger] other[l]).to_set()
                == entries_at(rows, sets[k]).to_set(),
{
    lemma_same_rows(rows, shuffled);
    // the first two rows of the set are two rows of the other index
    lemma_group_size(rows, c, sets, k);
    lemma_group_member(rows, c, sets, k, 0);
    lemma_group_member(rows, c, sets, k, 1);
    let e = rows[sets[k][0] as int];
    let e2 = rows[sets[k][1] as int];
    assert(e.full_path != e2.full_path);
    assert(rows.contains(e) && rows.contains(e2));
    let j = choose|j: int| 0 <= j < shuffled.len() && shuffled[j] == e;
    let j2 = choose|j2: int| 0 <= j2 < shuffled.len() && shuffled[j2] == e2;
    // so the first is in a set there, which has its hash
    lemma_shared_key_is_grouped(shuffled, c, other, j, j2);
    let l = choose|l: int| 0 <= l < other.len() && (#[trigger] other[l]).contains(j as usize);
    let a = choose|a: int| 0 <= a < other[l].len() && other[l][a] == j as usize;
    lemma_group_member(shuffled, c, other, l, a);
    lemma_group_member(shuffled, c, other, l, 0);
    // and each of the two sets holds the rows of the other
    lemma_set_within(rows, shuffled, c, sets, other, k, l);
    lemma_set_within(shuffled, rows, c, other, sets, l, k);
    assert(entries_at(shuffled, other[l]).to_set() =~= entries_at(rows, sets[k]).to_set());
}

/// The exact duplicate sets are the same partition whatever the order in
/// which the index is scanned: of two indexes that hold the same rows, no two
/// of them with the same path, every duplicate set of the one holds the same
/// rows as some duplicate set of the other.
pub proof fn lemma_exact_sets_independent_of_order(
    rows: Seq<EntryView>,
    shuffled: Seq<EntryView>,
    include_ignored: bool,
    k: int,
)
    requires
        rows.to_multiset() == shuffled.to_multiset(),
        distinct_paths(rows),
        rows.len() <= usize::MAX,
        0 <= k < duplicate_sets(rows, Criterion::Content { include_ignored }).len(),
    ensures
        exists|l: int|
            0 <= l < duplicate_sets(shuffled, Criterion::Content { include_ignored }).len()
                && entries_at(
                shuffled,
                #[trigger] duplicate_sets(shuffled, Criterion::Content { include_ignored })[l],
            ).to_set() == entries_at(
                rows,
                duplicate_sets(rows, Criterion::Content { include_ignored })[k],
            ).to_set(),
{
    let c = Criterion::Content { include_ignored };
    rows.to_multiset_ensures();
    shuffled.to_multiset_ensures();
    lemma_duplicate_sets_group_by_key(rows, c);
    lemma_duplicate_sets_group_by_key(shuffled, c);
    lemma_groups_independent_of_order(
        rows,
        shuffled,
        c,
        duplicate_sets(rows, c),
        duplicate_sets(shuffled, c),
        k,
    );
}

/// With a threshold of 0 the near duplicate sets are the classes of the rows
/// that are not ignored by equality of their perceptual hashes: a budget of 0
/// lets a row join a leader exactly when the two hashes are equal, and the
/// sets group the rows by that hash.
pub proof fn lemma_zero_threshold_groups_by_hash(rows: Seq<EntryView>)
    requires
        rows.len() <= usize::MAX,
    ensures
        groups_by_key(
            rows,
            Criterion::Perceptual { budget: 0 },
            duplicate_sets(rows, Criterion::Perceptual { budget: 0 }),
        ),
        forall|a: EntryView, b: EntryView|
            !a.ignored() && !b.ignored() ==> (#[trigger] joins(
                Criterion::Perceptual { budget: 0 },
                a,
                b,
            ) <==> a.perceptual_hash == b.perceptual_hash),
{
    let c = Criterion::Perceptual { budget: 0 };
    lemma_duplicate_sets_group_by_key(rows, c);
    assert forall|a: EntryView, b: EntryView| !a.ignored() && !b.ignored() implies (#[trigger] joins(
        c,
        a,
        b,
    ) <==> a.perceptual_hash == b.perceptual_hash) by {
        lemma_joins_is_same_key(c, a, b);
    }
}

} // verus!
