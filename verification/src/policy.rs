//! The keep policy: the order in which the members of a duplicate set stand.
//! The first member is the copy to retain, the others are extra.

use vstd::prelude::*;
use vstd::string::StrSliceExecFns;
use crate::entry::{Entry, EntryView, rows_view};
use crate::text::{path_before, path_precedes, lemma_path_before_strict_total};

verus! {

/// By which property the copy to keep is chosen: the smallest one stands
/// first.
#[derive(Copy, Clone, Debug, PartialEq, Eq, Structural)]
pub enum KeepWhichFile {
    /// By time of creation.
    CreatedFirst,
    /// By time of last modification.
    ModifiedFirst,
    /// By the number of characters of the full path.
    PathShortest,
    /// By the number of characters of the file name.
    NameShortest,
    /// By the depth of the path.
    PathShallowest,
}

/// The number by which `method` orders a row.
pub open spec fn policy_key(method: KeepWhichFile, e: EntryView) -> int {
    match method {
        KeepWhichFile::CreatedFirst => e.created_time as int,
        KeepWhichFile::ModifiedFirst => e.modified_time as int,
        KeepWhichFile::PathShortest => e.full_path.len() as int,
        KeepWhichFile::NameShortest => e.file_name.len() as int,
        KeepWhichFile::PathShallowest => e.path_depth as int,
    }
}

/// `a` stands before `b` in ascending order: it has the smaller key, or the
/// same key and the path that comes first.
pub open spec fn ascends(method: KeepWhichFile, a: EntryView, b: EntryView) -> bool {
    policy_key(method, a) < policy_key(method, b) || (policy_key(method, a) == policy_key(
        method,
        b,
    ) && path_before(a.full_path, b.full_path))
}

/// `a` stands before `b` under the policy. Reversed, the whole order is
/// turned round, the tie-break with it.
pub open spec fn keep_before(
    method: KeepWhichFile,
    reversed: bool,
    a: EntryView,
    b: EntryView,
) -> bool {
    if reversed {
        ascends(method, b, a)
    } else {
        ascends(method, a, b)
    }
}

/// A sequence of rows is in keep order when no row stands before an earlier
/// one.
pub open spec fn is_kept_order(method: KeepWhichFile, reversed: bool, s: Seq<EntryView>) -> bool {
    forall|i: int, j: int|
        0 <= i < j < s.len() ==> !keep_before(method, reversed, #[trigger] s[j], #[trigger] s[i])
}

/// No two rows of the sequence have the same path.
pub open spec fn distinct_paths(s: Seq<EntryView>) -> bool {
    forall|i: int, j: int|
        0 <= i < j < s.len() ==> (#[trigger] s[i]).full_path != (#[trigger] s[j]).full_path
}

/// The rows that a sequence of row numbers names.
pub open spec fn entries_at(rows: Seq<EntryView>, members: Seq<usize>) -> Seq<EntryView> {
    Seq::new(members.len(), |k: int| rows[members[k] as int])
}

/// Every member is the number of a row.
pub open spec fn members_in_range(members: Seq<usize>, len: nat) -> bool {
    forall|k: int| 0 <= k < members.len() ==> (#[trigger] members[k]) < len
}

/// The keep order is a strict total order on rows with different paths: no
/// row stands before itself, of two rows at most one stands before the other,
/// the order is transitive, and of two rows with different paths one stands
/// before the other, so that there are no ties.
pub proof fn lemma_keep_order_strict_total(
    method: KeepWhichFile,
    reversed: bool,
    a: EntryView,
    b: EntryView,
    c: EntryView,
)
    ensures
        !keep_before(method, reversed, a, a),
        !(keep_before(method, reversed, a, b) && keep_before(method, reversed, b, a)),
        keep_before(method, reversed, a, b) && keep_before(method, reversed, b, c) ==> keep_before(
            method,
            reversed,
            a,
            c,
        ),
        a.full_path != b.full_path ==> keep_before(method, reversed, a, b) || keep_before(
            method,
            reversed,
            b,
            a,
        ),
{
    lemma_path_before_strict_total(a.full_path, b.full_path, c.full_path);
    lemma_path_before_strict_total(c.full_path, b.full_path, a.full_path);
}

/// Reversing the policy turns the order round: `a` stands before `b` under
/// the reversed policy exactly when `b` stands before `a` under the plain one.
pub proof fn lemma_reversed_swaps(method: KeepWhichFile, a: EntryView, b: EntryView)
    ensures
        keep_before(method, true, a, b) == keep_before(method, false, b, a),
{
}

/// Whether `a` stands before `b` under the policy.
pub fn keeps_before(a: &Entry, b: &Entry, method: KeepWhichFile, reversed: bool) -> (r: bool)
    ensures
        r == keep_before(method, reversed, a@, b@),
{
    if reversed {
        ascends_exec(b, a, method)
    } else {
        ascends_exec(a, b, method)
    }
}

fn ascends_exec(a: &Entry, b: &Entry, method: KeepWhichFile) -> (r: bool)
    ensures
        r == ascends(method, a@, b@),
{
    let tie = path_precedes(a.full_path.as_str(), b.full_path.as_str());
    match method {
        KeepWhichFile::CreatedFirst => a.created_time < b.created_time || (a.created_time
            == b.created_time && tie),
        KeepWhichFile::ModifiedFirst => a.modified_time < b.modified_time || (a.modified_time
            == b.modified_time && tie),
        KeepWhichFile::PathShortest => {
            let x = a.full_path.as_str().unicode_len();
            let y = b.full_path.as_str().unicode_len();
            x < y || (x == y && tie)
        },
        KeepWhichFile::NameShortest => {
            let x = a.file_name.as_str().unicode_len();
            let y = b.file_name.as_str().unicode_len();
            x < y || (x == y && tie)
        },
        KeepWhichFile::PathShallowest => a.path_depth < b.path_depth || (a.path_depth
            == b.path_depth && tie),
    }
}

/// Where `m` goes into the ordered members, from position `from` on: before
/// the first member that it stands before, at the end where there is none.
pub open spec fn insert_position(
    rows: Seq<EntryView>,
    method: KeepWhichFile,
    reversed: bool,
    ordered: Seq<usize>,
    m: usize,
    from: int,
) -> int
    decreases ordered.len() - from,
{
    if from < 0 || from >= ordered.len() {
        ordered.len() as int
    } else if keep_before(method, reversed, rows[m as int], rows[ordered[from] as int]) {
        from
    } else {
        insert_position(rows, method, reversed, ordered, m, from + 1)
    }
}

/// The first `n` members in keep order, each put in turn before the first
/// member that it stands before.
pub open spec fn keep_order_upto(
    rows: Seq<EntryView>,
    method: KeepWhichFile,
    reversed: bool,
    members: Seq<usize>,
    n: int,
) -> Seq<usize>
    decreases n,
{
    if n <= 0 {
        Seq::empty()
    } else {
        let sorted = keep_order_upto(rows, method, reversed, members, n - 1);
        sorted.insert(
            insert_position(rows, method, reversed, sorted, members[n - 1], 0),
            members[n - 1],
        )
    }
}

/// The members in keep order. Members that the policy does not tell apart,
/// which have the same path, stay in the order in which they came.
pub open spec fn keep_order(
    rows: Seq<EntryView>,
    method: KeepWhichFile,
    reversed: bool,
    members: Seq<usize>,
) -> Seq<usize> {
    keep_order_upto(rows, method, reversed, members, members.len() as int)
}

/// Putting a value into a sequence adds it to what the sequence holds.
proof fn lemma_insert_to_multiset(s: Seq<usize>, p: int, a: usize)
    requires
        0 <= p <= s.len(),
    ensures
        s.insert(p, a).to_multiset() =~= s.to_multiset().insert(a),
{
    broadcast use vstd::seq_lib::group_to_multiset_ensures;
}

/// The rows that `members` names, in keep order: the first is the copy to
/// retain. Members that the policy does not tell apart stay in the order in
/// which they came.
pub fn order_members(
    rows: &Vec<Entry>,
    members: &Vec<usize>,
    method: KeepWhichFile,
    reversed: bool,
) -> (ordered: Vec<usize>)
    requires
        members_in_range(members@, rows@.len()),
    ensures
        ordered@ == keep_order(rows_view(rows@), method, reversed, members@),
        ordered@.to_multiset() == members@.to_multiset(),
        members_in_range(ordered@, rows@.len()),
        is_kept_order(method, reversed, entries_at(rows_view(rows@), ordered@)),
{
    let ghost table = rows_view(rows@);
    let mut ordered: Vec<usize> = Vec::new();
    let mut n: usize = 0;
    assert(members@.take(0) =~= Seq::<usize>::empty());
    while n < members.len()
        invariant
            n <= members.len(),
            table == rows_view(rows@),
            members_in_range(members@, rows@.len()),
            members_in_range(ordered@, rows@.len()),
            ordered@ == keep_order_upto(table, method, reversed, members@, n as int),
            ordered@.to_multiset() == members@.take(n as int).to_multiset(),
            is_kept_order(method, reversed, entries_at(table, ordered@)),
        decreases members.len() - n,
    {
        let m = members[n];
        let mut p: usize = 0;
        while p < ordered.len() && !keeps_before(&rows[m], &rows[ordered[p]], method, reversed)
            invariant
                p <= ordered.len(),
                m < rows@.len(),
                table == rows_view(rows@),
                members_in_range(ordered@, rows@.len()),
                insert_position(table, method, reversed, ordered@, m, 0) == insert_position(
                    table,
                    method,
                    reversed,
                    ordered@,
                    m,
                    p as int,
                ),
                forall|q: int|
                    0 <= q < p ==> !keep_before(
                        method,
                        reversed,
                        table[m as int],
                        #[trigger] table[ordered@[q] as int],
                    ),
            decreases ordered.len() - p,
        {
            p = p + 1;
        }
        let ghost before = ordered@;
        ordered.insert(p, m);
        proof {
            lemma_insert_to_multiset(before, p as int, m);
            assert(members@.take(n + 1) =~= members@.take(n as int).push(m));
            vstd::seq_lib::to_multiset_build(members@.take(n as int), m);
            let now = entries_at(table, ordered@);
            let was = entries_at(table, before);
            assert forall|i: int, j: int| 0 <= i < j < now.len() implies !keep_before(
                method,
                reversed,
                #[trigger] now[j],
                #[trigger] now[i],
            ) by {
                let oi = if i < p { i } else { i - 1 };
                let oj = if j < p { j } else { j - 1 };
                if i != p && j != p {
                    assert(now[i] == was[oi]);
                    assert(now[j] == was[oj]);
                } else if i == p {
                    // the new member stands before the one at p, which no
                    // later member stands before
                    assert(now[j] == was[oj]);
                    if p < before.len() {
                        lemma_keep_order_strict_total(
                            method,
                            reversed,
                            now[j],
                            table[m as int],
                            was[p as int],
                        );
                    }
                }
            }
        }
        n = n + 1;
    }
    assert(members@.take(n as int) =~= members@);
    ordered
}

/// The numbers of all rows of `entries`, in keep order.
pub fn order_entries(entries: &Vec<Entry>, method: KeepWhichFile, reversed: bool) -> (ordered: Vec<
    usize,
>)
    ensures
        ordered@ == keep_order(
            rows_view(entries@),
            method,
            reversed,
            Seq::new(entries@.len(), |i: int| i as usize),
        ),
        ordered@.to_multiset() == Seq::new(entries@.len(), |i: int| i as usize).to_multiset(),
        members_in_range(ordered@, entries@.len()),
        is_kept_order(method, reversed, entries_at(rows_view(entries@), ordered@)),
{
    let mut all: Vec<usize> = Vec::new();
    let mut i: usize = 0;
    while i < entries.len()
        invariant
            i <= entries.len(),
            all@ == Seq::new(i as nat, |k: int| k as usize),
        decreases entries.len() - i,
    {
        all.push(i);
        i = i + 1;
    }
    order_members(entries, &all, method, reversed)
}

/// The number of the row to retain: the one before which no other stands.
/// There is one whenever there is a row.
pub fn entry_to_keep(entries: &Vec<Entry>, method: KeepWhichFile, reversed: bool) -> (kept: Option<
    usize,
>)
    ensures
        kept is Some <==> entries@.len() > 0,
        kept matches Some(k) ==> k < entries@.len() && forall|j: int|
            0 <= j < entries@.len() ==> !keep_before(
                method,
                reversed,
                #[trigger] entries@[j]@,
                entries@[k as int]@,
            ),
        kept matches Some(k) ==> forall|j: int|
            0 <= j < k ==> keep_before(
                method,
                reversed,
                entries@[k as int]@,
                #[trigger] entries@[j]@,
            ),
{
    if entries.len() == 0 {
        return None;
    }
    let mut best: usize = 0;
    let mut i: usize = 1;
    proof {
        lemma_keep_order_strict_total(method, reversed, entries@[0]@, entries@[0]@, entries@[0]@);
    }
    while i < entries.len()
        invariant
            1 <= i <= entries.len(),
            best < i,
            forall|j: int|
                0 <= j < i ==> !keep_before(
                    method,
                    reversed,
                    #[trigger] entries@[j]@,
                    entries@[best as int]@,
                ),
            forall|j: int|
                0 <= j < best ==> keep_before(
                    method,
                    reversed,
                    entries@[best as int]@,
                    #[trigger] entries@[j]@,
                ),
        decreases entries.len() - i,
    {
        if keeps_before(&entries[i], &entries[best], method, reversed) {
            proof {
                let cand = entries@[i as int]@;
                let old_best = entries@[best as int]@;
                assert forall|j: int| 0 <= j < i + 1 implies !keep_before(
                    method,
                    reversed,
                    #[trigger] entries@[j]@,
                    cand,
                ) by {
                    lemma_keep_order_strict_total(method, reversed, entries@[j]@, cand, old_best);
                }
                assert forall|j: int| 0 <= j < i implies keep_before(
                    method,
                    reversed,
                    cand,
                    #[trigger] entries@[j]@,
                ) by {
                    lemma_keep_order_strict_total(method, reversed, entries@[j]@, cand, old_best);
                }
            }
            best = i;
        }
        i = i + 1;
    }
    Some(best)
}

/// In a sequence in keep order of rows with different paths every row stands
/// before all the rows after it: there are no ties.
pub proof fn lemma_kept_order_is_strict(
    method: KeepWhichFile,
    reversed: bool,
    s: Seq<EntryView>,
    i: int,
    j: int,
)
    requires
        is_kept_order(method, reversed, s),
        distinct_paths(s),
        0 <= i < j < s.len(),
    ensures
        keep_before(method, reversed, s[i], s[j]),
{
    lemma_keep_order_strict_total(method, reversed, s[i], s[j], s[j]);
}

/// Two sequences in keep order that hold the same rows, no two of them with
/// the same path, are equal: the order does not depend on the order in which
/// the rows were given.
pub proof fn lemma_kept_order_unique(
    method: KeepWhichFile,
    reversed: bool,
    x: Seq<EntryView>,
    y: Seq<EntryView>,
)
    requires
        is_kept_order(method, reversed, x),
        is_kept_order(method, reversed, y),
        x.to_multiset() == y.to_multiset(),
        distinct_paths(x),
    ensures
        x == y,
    decreases x.len(),
{
    broadcast use vstd::seq_lib::group_to_multiset_ensures;

    x.to_multiset_ensures();
    if x.len() > 0 {
        assert(y.contains(x[0])) by {
            assert(x.to_multiset().count(x[0]) > 0);
        }
        assert(x.contains(y[0])) by {
            assert(y.to_multiset().count(y[0]) > 0);
        }
        let i = choose|i: int| 0 <= i < x.len() && x[i] == y[0];
        if i > 0 {
            // y[0] stands later in x, so x[0] stands before it; but x[0]
            // is a row of y, where no row stands before y[0]
            lemma_keep_order_strict_total(method, reversed, x[0], x[i], x[i]);
        }
        let xs = x.drop_first();
        let ys = y.drop_first();
        assert(xs =~= x.remove(0));
        assert(ys =~= y.remove(0));
        lemma_kept_order_unique(method, reversed, xs, ys);
        assert(x =~= seq![x[0]] + xs);
    }
}

/// The order under the reversed policy is the exact reverse of the order
/// under the plain one: of the same rows, no two with the same path, the
/// sequence in reversed keep order is the sequence in plain keep order read
/// backwards.
pub proof fn lemma_reversed_order_is_reverse(
    method: KeepWhichFile,
    plain: Seq<EntryView>,
    turned: Seq<EntryView>,
)
    requires
        is_kept_order(method, false, plain),
        is_kept_order(method, true, turned),
        plain.to_multiset() == turned.to_multiset(),
        distinct_paths(plain),
    ensures
        turned == plain.reverse(),
{
    let back = plain.reverse();
    plain.lemma_reverse_to_multiset();
    lemma_kept_order_unique(method, true, back, turned);
}

} // verus!
