//! Paths as text: their components, and the order in which two paths stand.

use vstd::prelude::*;
use vstd::string::StringSliceAdditionalSpecFns;
use vstd::string::StrSliceExecFns;
use vstd::utf8::encode_utf8;
use vstd::utf8::decode_utf8;
use vstd::utf8::encode_utf8_decode_utf8;

verus! {

/// A component of a path starts at `i` when the character there is no
/// separator and stands first or after a separator.
pub open spec fn is_component_start(p: Seq<char>, i: int) -> bool {
    0 <= i < p.len() && p[i] != '/' && (i == 0 || p[i - 1] == '/')
}

/// Number of components that start among the first `n` characters.
pub open spec fn component_starts(p: Seq<char>, n: int) -> nat
    decreases n,
{
    if n <= 0 {
        0
    } else {
        component_starts(p, n - 1) + if is_component_start(p, n - 1) {
            1nat
        } else {
            0nat
        }
    }
}

/// The depth of a path: the number of its components, that is of its
/// maximal runs of characters other than `/`, the root of an absolute path
/// counting as one more.
pub open spec fn path_depth_spec(p: Seq<char>) -> nat {
    component_starts(p, p.len() as int) + if p.len() > 0 && p[0] == '/' {
        1nat
    } else {
        0nat
    }
}

/// Length of the first `n` characters without the separators at their end.
pub open spec fn name_end(p: Seq<char>, n: int) -> int
    decreases n,
{
    if n > 0 && p[n - 1] == '/' {
        name_end(p, n - 1)
    } else if n > 0 {
        n
    } else {
        0
    }
}

/// Where the component that ends before `e` starts.
pub open spec fn name_start(p: Seq<char>, e: int) -> int
    decreases e,
{
    if e <= 0 {
        0
    } else if p[e - 1] == '/' {
        e
    } else {
        name_start(p, e - 1)
    }
}

/// The file name of a path: its last component, empty where it has none.
pub open spec fn file_name_spec(p: Seq<char>) -> Seq<char> {
    let e = name_end(p, p.len() as int);
    p.subrange(name_start(p, e), e)
}

/// The component that ends before `e` starts at or before `e`.
pub proof fn lemma_name_start_bounds(p: Seq<char>, e: int)
    requires
        0 <= e <= p.len(),
    ensures
        0 <= name_start(p, e) <= e,
        forall|j: int| name_start(p, e) <= j < e ==> p[j] != '/',
        name_start(p, e) == 0 || p[name_start(p, e) - 1] == '/',
    decreases e,
{
    if e > 0 && p[e - 1] != '/' {
        lemma_name_start_bounds(p, e - 1);
    }
}

/// What is left of the first `n` characters ends in no separator.
pub proof fn lemma_name_end_bounds(p: Seq<char>, n: int)
    requires
        0 <= n <= p.len(),
    ensures
        0 <= name_end(p, n) <= n,
        name_end(p, n) == 0 || p[name_end(p, n) - 1] != '/',
        forall|j: int| name_end(p, n) <= j < n ==> p[j] == '/',
    decreases n,
{
    if n > 0 && p[n - 1] == '/' {
        lemma_name_end_bounds(p, n - 1);
    }
}

/// The file name holds no separator, and is empty only for a path without
/// components.
pub proof fn lemma_file_name_has_no_separator(p: Seq<char>)
    ensures
        forall|j: int| 0 <= j < file_name_spec(p).len() ==> file_name_spec(p)[j] != '/',
        file_name_spec(p).len() == 0 <==> (forall|j: int| 0 <= j < p.len() ==> p[j] == '/'),
{
    let e = name_end(p, p.len() as int);
    lemma_name_end_bounds(p, p.len() as int);
    lemma_name_start_bounds(p, e);
}

/// The depth of `path`.
pub fn path_depth(path: &str) -> (d: u64)
    ensures
        d == path_depth_spec(path@),
{
    let len = path.unicode_len();
    let mut i: usize = 0;
    let mut starts: usize = 0;
    let mut after_separator = true;
    let mut rooted = false;
    for c in it: path.chars()
        invariant
            it.seq() == path@,
            len == path@.len(),
            i == it.index(),
            starts == component_starts(path@, i as int),
            after_separator == (i == 0 || path@[i - 1] == '/'),
            rooted == (i > 0 && path@[0] == '/'),
            starts + (if rooted {
                1nat
            } else {
                0nat
            }) <= i,
    {
        if c == '/' {
            if i == 0 {
                rooted = true;
            }
            after_separator = true;
        } else {
            if after_separator {
                starts = starts + 1;
            }
            after_separator = false;
        }
        i = i + 1;
    }
    let total = if rooted {
        starts + 1
    } else {
        starts
    };
    total as u64
}

/// The file name of `path`.
pub fn file_name(path: &str) -> (name: String)
    ensures
        name@ == file_name_spec(path@),
{
    let len = path.unicode_len();
    let mut i: usize = 0;
    let mut start: usize = 0;
    let mut end: usize = 0;
    for c in it: path.chars()
        invariant
            it.seq() == path@,
            len == path@.len(),
            i == it.index(),
            end == name_end(path@, i as int),
            start == name_start(path@, end as int),
            start <= end <= i,
    {
        if c != '/' {
            assert(name_start(path@, i + 1) == name_start(path@, i as int));
            if end < i || end == 0 {
                start = i;
            }
            end = i + 1;
        }
        i = i + 1;
    }
    path.substring_char(start, end).to_owned()
}

/// Whether `a` stands before `b`, from position `i` on: at the first
/// position where they differ `a` has the smaller byte, or `a` ends there and
/// `b` does not.
pub open spec fn bytes_before_from(a: Seq<u8>, b: Seq<u8>, i: int) -> bool
    decreases a.len() - i,
{
    if i < 0 || i >= b.len() {
        false
    } else if i >= a.len() {
        true
    } else if a[i] != b[i] {
        a[i] < b[i]
    } else {
        bytes_before_from(a, b, i + 1)
    }
}

/// The lexical order of two paths: that of their UTF-8 bytes, which is the
/// order of `str`.
pub open spec fn path_before(p: Seq<char>, q: Seq<char>) -> bool {
    bytes_before_from(encode_utf8(p), encode_utf8(q), 0)
}

/// Nothing stands before itself.
pub proof fn lemma_bytes_before_irreflexive(a: Seq<u8>, i: int)
    ensures
        !bytes_before_from(a, a, i),
    decreases a.len() - i,
{
    if 0 <= i < a.len() {
        lemma_bytes_before_irreflexive(a, i + 1);
    }
}

/// Of two sequences at most one stands before the other.
pub proof fn lemma_bytes_before_asymmetric(a: Seq<u8>, b: Seq<u8>, i: int)
    ensures
        !(bytes_before_from(a, b, i) && bytes_before_from(b, a, i)),
    decreases a.len() - i,
{
    if 0 <= i < a.len() && i < b.len() && a[i] == b[i] {
        lemma_bytes_before_asymmetric(a, b, i + 1);
    }
}

/// What stands before a sequence stands before all that it stands before.
pub proof fn lemma_bytes_before_transitive(a: Seq<u8>, b: Seq<u8>, c: Seq<u8>, i: int)
    requires
        bytes_before_from(a, b, i),
        bytes_before_from(b, c, i),
    ensures
        bytes_before_from(a, c, i),
    decreases a.len() - i,
{
    if 0 <= i < a.len() && i < b.len() && i < c.len() && a[i] == b[i] && b[i] == c[i] {
        lemma_bytes_before_transitive(a, b, c, i + 1);
    }
}

/// Two sequences that agree before `i` are equal, or one stands before the
/// other.
pub proof fn lemma_bytes_before_total(a: Seq<u8>, b: Seq<u8>, i: int)
    requires
        0 <= i <= a.len(),
        i <= b.len(),
        forall|j: int| 0 <= j < i ==> a[j] == b[j],
    ensures
        a == b || bytes_before_from(a, b, i) || bytes_before_from(b, a, i),
    decreases a.len() - i,
{
    if i < a.len() && i < b.len() {
        if a[i] == b[i] {
            lemma_bytes_before_total(a, b, i + 1);
        }
    } else if i == a.len() && i == b.len() {
    }
}

/// The lexical order of paths is a strict total order.
pub proof fn lemma_path_before_strict_total(p: Seq<char>, q: Seq<char>, r: Seq<char>)
    ensures
        !path_before(p, p),
        !(path_before(p, q) && path_before(q, p)),
        path_before(p, q) && path_before(q, r) ==> path_before(p, r),
        p != q ==> path_before(p, q) || path_before(q, p),
{
    let a = encode_utf8(p);
    let b = encode_utf8(q);
    let c = encode_utf8(r);
    lemma_bytes_before_irreflexive(a, 0);
    lemma_bytes_before_asymmetric(a, b, 0);
    if path_before(p, q) && path_before(q, r) {
        lemma_bytes_before_transitive(a, b, c, 0);
    }
    if p != q {
        encode_utf8_decode_utf8(p);
        encode_utf8_decode_utf8(q);
        lemma_bytes_before_total(a, b, 0);
    }
}

/// Whether `a` stands before `b` in the lexical order of paths.
pub fn path_precedes(a: &str, b: &str) -> (r: bool)
    ensures
        r == path_before(a@, b@),
{
    let x = a.as_bytes();
    let y = b.as_bytes();
    let mut i: usize = 0;
    while i < x.len() && i < y.len() && x[i] == y[i]
        invariant
            i <= x.len(),
            i <= y.len(),
            bytes_before_from(x@, y@, 0) == bytes_before_from(x@, y@, i as int),
        decreases x.len() - i,
    {
        i = i + 1;
    }
    if i >= y.len() {
        false
    } else if i >= x.len() {
        true
    } else {
        x[i] < y[i]
    }
}

} // verus!
