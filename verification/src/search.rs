//! The two searches for duplicates over the rows of an index.

use vstd::prelude::*;
use crate::entry::{Entry, rows_view};
use crate::cluster::{Criterion, duplicate_sets, cluster_rows, is_led, lemma_duplicate_sets_are_led};
use crate::hamming::{budget_spec, distance_budget};
use crate::partition::{groups_by_key, lemma_duplicate_sets_group_by_key};

verus! {

/// The sets of rows with the same content hash, each of two rows or more.
/// Ignored rows take part only where `include_ignored` is set. A set lists
/// the numbers of its rows in index order; the sets stand in the order of
/// their first rows.
pub fn find_exact_duplicates(rows: &Vec<Entry>, include_ignored: bool) -> (sets: Vec<Vec<usize>>)
    ensures
        sets.deep_view() == duplicate_sets(
            rows_view(rows@),
            Criterion::Content { include_ignored },
        ),
        groups_by_key(rows_view(rows@), Criterion::Content { include_ignored }, sets.deep_view()),
{
    let c = Criterion::Content { include_ignored };
    let count = rows.len();
    proof {
        lemma_duplicate_sets_group_by_key(rows_view(rows@), c);
    }
    cluster_rows(rows, c)
}

/// The sets of rows whose perceptual hashes are near each other, each of two
/// rows or more; ignored rows never take part. The threshold is the share of
/// the bits of a hash, in percent, in which a row may differ from the leader
/// of its set. The rows are looked at in index order; a row joins the first
/// set whose leader is near enough, so the sets depend on that order: every
/// member of a set is within the budget of its leader, and of no leader of
/// an earlier set. With a threshold of 0 the sets are the classes of rows
/// with equal hashes.
pub fn find_near_duplicates(rows: &Vec<Entry>, distance_threshold_percent: u8) -> (sets: Vec<
    Vec<usize>,
>)
    ensures
        sets.deep_view() == duplicate_sets(
            rows_view(rows@),
            Criterion::Perceptual { budget: budget_spec(distance_threshold_percent) as u32 },
        ),
        is_led(
            rows_view(rows@),
            Criterion::Perceptual { budget: budget_spec(distance_threshold_percent) as u32 },
            sets.deep_view(),
        ),
        forall|k: int| 0 <= k < sets.deep_view().len() ==> (#[trigger] sets.deep_view()[k]).len() >= 2,
        budget_spec(distance_threshold_percent) == 0 ==> groups_by_key(
            rows_view(rows@),
            Criterion::Perceptual { budget: 0 },
            sets.deep_view(),
        ),
{
    let budget = distance_budget(distance_threshold_percent);
    let c = Criterion::Perceptual { budget };
    let count = rows.len();
    proof {
        lemma_duplicate_sets_are_led(rows_view(rows@), c);
        if budget == 0 {
            lemma_duplicate_sets_group_by_key(rows_view(rows@), c);
        }
    }
    cluster_rows(rows, c)
}

} // verus!
