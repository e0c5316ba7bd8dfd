//! Cell codes, tiles, and the sums that the resolver works with.

use vstd::prelude::*;

verus! {

/// A cell code with the number of points it holds.
///
/// A code is a string of bytes over a fixed alphabet; a longer code names a
/// sub-cell of every code that is a prefix of it.
#[derive(Clone, Debug, PartialEq, Eq)]
pub struct Tile {
    pub code: Vec<u8>,
    pub count: u64,
}

/// `p` is a prefix of (or equal to) `s`.
pub open spec fn is_prefix(p: Seq<u8>, s: Seq<u8>) -> bool {
    p.len() <= s.len() && s.subrange(0, p.len() as int) == p
}

/// Sum of the counts of every entry whose code has `p` as a prefix.
pub open spec fn group_sum(m: Seq<Tile>, p: Seq<u8>) -> nat
    decreases m.len(),
{
    if m.len() == 0 {
        0
    } else {
        group_sum(m.drop_last(), p) + if is_prefix(p, m.last().code@) {
            m.last().count as nat
        } else {
            0nat
        }
    }
}

/// Sum of all counts.
pub open spec fn total(m: Seq<Tile>) -> nat
    decreases m.len(),
{
    if m.len() == 0 {
        0
    } else {
        total(m.drop_last()) + m.last().count as nat
    }
}

/// No code occurs twice.
pub open spec fn distinct_codes(m: Seq<Tile>) -> bool {
    forall|a: int, b: int|
        0 <= a < m.len() && 0 <= b < m.len() && a != b ==> m[a].code@ != m[b].code@
}

/// A count map at the given precision: every code has that length, and no
/// code occurs twice.
pub open spec fn well_formed_counts(m: Seq<Tile>, precision: nat) -> bool {
    &&& forall|j: int| 0 <= j < m.len() ==> #[trigger] m[j].code@.len() == precision
    &&& distinct_codes(m)
}

/// `r` lists each entry of `target` exactly once, and nothing else.
pub open spec fn lists_exactly(r: Seq<Tile>, target: Map<Seq<u8>, nat>) -> bool {
    &&& distinct_codes(r)
    &&& forall|u: int|
        0 <= u < r.len() ==> target.contains_key(#[trigger] r[u].code@) && target[r[u].code@]
            == r[u].count as nat
    &&& forall|c: Seq<u8>|
        #[trigger] target.contains_key(c) ==> exists|u: int| 0 <= u < r.len() && r[u].code@ == c
}

/// Replacing one entry changes the total by the difference of the counts.
pub proof fn lemma_total_update(m: Seq<Tile>, u: int, x: Tile)
    requires
        0 <= u < m.len(),
    ensures
        total(m.update(u, x)) + m[u].count == total(m) + x.count,
    decreases m.len(),
{
    if u == m.len() - 1 {
        assert(m.update(u, x).drop_last() =~= m.drop_last());
    } else {
        assert(m.update(u, x).drop_last() =~= m.drop_last().update(u, x));
        lemma_total_update(m.drop_last(), u, x);
    }
}

/// A prefix of a list holds no more than the whole list.
pub proof fn lemma_total_prefix(m: Seq<Tile>, b: int)
    requires
        0 <= b <= m.len(),
    ensures
        total(m.subrange(0, b)) <= total(m),
    decreases m.len(),
{
    if b < m.len() {
        assert(m.drop_last().subrange(0, b) =~= m.subrange(0, b));
        lemma_total_prefix(m.drop_last(), b);
    } else {
        assert(m.subrange(0, b) =~= m);
    }
}

/// The first `i` bytes of `code`.
pub fn prefix_of(code: &Vec<u8>, i: usize) -> (r: Vec<u8>)
    requires
        i <= code@.len(),
    ensures
        r@ == code@.subrange(0, i as int),
{
    let mut r: Vec<u8> = Vec::new();
    let mut k: usize = 0;
    while k < i
        invariant
            k <= i <= code@.len(),
            r@ == code@.subrange(0, k as int),
        decreases i - k,
    {
        r.push(code[k]);
        k += 1;
        assert(r@ =~= code@.subrange(0, k as int));
    }
    r
}

/// Whether `a` and `b` agree on their first `i` bytes.
pub fn same_prefix(a: &Vec<u8>, b: &Vec<u8>, i: usize) -> (r: bool)
    requires
        i <= a@.len(),
        i <= b@.len(),
    ensures
        r == (a@.subrange(0, i as int) == b@.subrange(0, i as int)),
{
    let mut k: usize = 0;
    while k < i
        invariant
            k <= i <= a@.len(),
            i <= b@.len(),
            a@.subrange(0, k as int) == b@.subrange(0, k as int),
        decreases i - k,
    {
        if a[k] != b[k] {
            assert(a@.subrange(0, i as int)[k as int] != b@.subrange(0, i as int)[k as int]);
            return false;
        }
        k += 1;
        assert(a@.subrange(0, k as int) =~= b@.subrange(0, k as int));
    }
    true
}

/// Whether `a` and `b` are the same code.
pub fn same_code(a: &Vec<u8>, b: &Vec<u8>) -> (r: bool)
    ensures
        r == (a@ == b@),
{
    if a.len() != b.len() {
        return false;
    }
    let r = same_prefix(a, b, a.len());
    assert(a@.subrange(0, a@.len() as int) =~= a@);
    assert(b@.subrange(0, b@.len() as int) =~= b@);
    r
}

} // verus!
