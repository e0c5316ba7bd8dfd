//! The finest-level aggregator: from the cell code of every point to the
//! number of points in each cell.

use vstd::prelude::*;
use crate::tile::{Tile, lemma_total_prefix, lemma_total_update, lists_exactly, same_code, total};

verus! {

/// Number of times `c` occurs in `codes`.
pub open spec fn occurrences(codes: Seq<Vec<u8>>, c: Seq<u8>) -> nat
    decreases codes.len(),
{
    if codes.len() == 0 {
        0
    } else {
        occurrences(codes.drop_last(), c) + if codes.last()@ == c {
            1nat
        } else {
            0nat
        }
    }
}

/// The codes that occur in `codes`.
pub open spec fn code_set(codes: Seq<Vec<u8>>) -> Set<Seq<u8>> {
    codes.map_values(|v: Vec<u8>| v@).to_set()
}

/// The count map of `codes`: each code that occurs, with how often.
pub open spec fn counts_of(codes: Seq<Vec<u8>>) -> Map<Seq<u8>, nat> {
    code_set(codes).mk_map(|c: Seq<u8>| occurrences(codes, c))
}

proof fn lemma_code_set_push(codes: Seq<Vec<u8>>, x: Vec<u8>)
    ensures
        code_set(codes.push(x)) == code_set(codes).insert(x@),
{
    let s = codes.map_values(|v: Vec<u8>| v@);
    let s2 = codes.push(x).map_values(|v: Vec<u8>| v@);
    assert(s2 =~= s.push(x@));
    assert forall|c: Seq<u8>| s2.contains(c) <==> (s.contains(c) || c == x@) by {
        if s2.contains(c) {
            let i = choose|i: int| 0 <= i < s2.len() && s2[i] == c;
            if i < s.len() {
                assert(s[i] == c);
            }
        }
        if s.contains(c) {
            let i = choose|i: int| 0 <= i < s.len() && s[i] == c;
            assert(s2[i] == c);
        }
        if c == x@ {
            assert(s2[s.len() as int] == c);
        }
    }
    assert(code_set(codes.push(x)) =~= code_set(codes).insert(x@));
}

proof fn lemma_occurrences_absent(codes: Seq<Vec<u8>>, c: Seq<u8>)
    requires
        !code_set(codes).contains(c),
    ensures
        occurrences(codes, c) == 0,
    decreases codes.len(),
{
    if codes.len() > 0 {
        let x = codes.last();
        assert(codes =~= codes.drop_last().push(x));
        lemma_code_set_push(codes.drop_last(), x);
        lemma_occurrences_absent(codes.drop_last(), c);
    }
}

/// `counts` with `n` more points in the cell `c`.
pub open spec fn added(counts: Map<Seq<u8>, nat>, c: Seq<u8>, n: nat) -> Map<Seq<u8>, nat> {
    counts.insert(
        c,
        if counts.contains_key(c) {
            counts[c] + n
        } else {
            n
        },
    )
}

/// Adds `n` points to the cell `code` of a count map.
fn add_count(out: &mut Vec<Tile>, code: &Vec<u8>, n: u64, Ghost(counts): Ghost<Map<Seq<u8>, nat>>)
    requires
        lists_exactly(old(out)@, counts),
        total(old(out)@) + n <= u64::MAX,
    ensures
        lists_exactly(final(out)@, added(counts, code@, n as nat)),
        total(final(out)@) == total(old(out)@) + n,
{
    let mut u: usize = 0;
    while u < out.len()
        invariant
            u <= out@.len(),
            out@ == old(out)@,
            lists_exactly(old(out)@, counts),
            total(old(out)@) + n <= u64::MAX,
            forall|v: int| 0 <= v < u ==> out@[v].code@ != code@,
        decreases out@.len() - u,
    {
        if same_code(&out[u].code, code) {
            let ghost before = out@;
            proof {
                lemma_entry_le_total(before, u as int);
            }
            let c = out[u].count + n;
            out[u].count = c;
            proof {
                assert(out@ == before.update(u as int, out@[u as int]));
                lemma_total_update(before, u as int, out@[u as int]);
                assert forall|v: int| 0 <= v < out@.len() && v != u implies out@[v] == before[v] by {}
                assert(counts.contains_key(code@));
                let target = added(counts, code@, n as nat);
                assert forall|c2: Seq<u8>| #[trigger] target.contains_key(c2) implies exists|v: int|
                    0 <= v < out@.len() && out@[v].code@ == c2 by {
                    if c2 != code@ {
                        let v = choose|v: int| 0 <= v < before.len() && before[v].code@ == c2;
                        assert(out@[v].code@ == c2);
                    }
                }
            }
            return;
        }
        u += 1;
    }
    assert(!counts.contains_key(code@));
    let ghost before = out@;
    out.push(Tile { code: code.clone(), count: n });
    proof {
        assert(out@[out@.len() - 1].code@ == code@);
        assert(out@.drop_last() =~= before);
        assert forall|v: int| 0 <= v < before.len() implies out@[v] == before[v] by {}
        let target = added(counts, code@, n as nat);
        assert forall|c2: Seq<u8>| #[trigger] target.contains_key(c2) implies exists|v: int|
            0 <= v < out@.len() && out@[v].code@ == c2 by {
            if c2 != code@ {
                let v = choose|v: int| 0 <= v < before.len() && before[v].code@ == c2;
                assert(out@[v].code@ == c2);
            } else {
                assert(out@[before.len() as int].code@ == c2);
            }
        }
    }
}

proof fn lemma_entry_le_total(m: Seq<Tile>, u: int)
    requires
        0 <= u < m.len(),
    ensures
        m[u].count <= total(m),
    decreases m.len(),
{
    if u < m.len() - 1 {
        lemma_entry_le_total(m.drop_last(), u);
    }
}

/// Counts how many times each cell code occurs.
///
/// The result lists every code of `codes` once, with the number of its
/// occurrences; the counts add up to the number of codes.
pub fn count_codes(codes: &Vec<Vec<u8>>) -> (r: Vec<Tile>)
    ensures
        lists_exactly(r@, counts_of(codes@)),
        total(r@) == codes@.len(),
{
    let mut out: Vec<Tile> = Vec::new();
    let mut i: usize = 0;
    proof {
        assert(counts_of(codes@.subrange(0, 0)) =~= Map::empty());
    }
    while i < codes.len()
        invariant
            i <= codes@.len(),
            lists_exactly(out@, counts_of(codes@.subrange(0, i as int))),
            total(out@) == i,
        decreases codes@.len() - i,
    {
        let ghost prev = codes@.subrange(0, i as int);
        let ghost x = codes@[i as int];
        proof {
            assert(codes@.subrange(0, i + 1) =~= prev.push(x));
            lemma_code_set_push(prev, x);
            if !code_set(prev).contains(x@) {
                lemma_occurrences_absent(prev, x@);
            }
            let next = prev.push(x);
            assert(next.drop_last() =~= prev);
            assert(counts_of(next) =~= added(counts_of(prev), x@, 1));
        }
        add_count(&mut out, &codes[i], 1, Ghost(counts_of(prev)));
        i += 1;
    }
    proof {
        assert(codes@.subrange(0, codes@.len() as int) =~= codes@);
    }
    out
}

/// The count map of a list of entries: each code with the sum of the counts
/// of its entries, a code listed twice being summed.
pub open spec fn sum_map(m: Seq<Tile>) -> Map<Seq<u8>, nat>
    decreases m.len(),
{
    if m.len() == 0 {
        Map::empty()
    } else {
        added(sum_map(m.drop_last()), m.last().code@, m.last().count as nat)
    }
}

/// Merges two partial count maps by summing the counts of matching codes.
///
/// The result lists each code of `a` or `b` once, with the sum of all its
/// counts in both.
pub fn merge_counts(a: &Vec<Tile>, b: &Vec<Tile>) -> (r: Vec<Tile>)
    requires
        total(a@) + total(b@) <= u64::MAX,
    ensures
        lists_exactly(r@, sum_map(a@ + b@)),
        total(r@) == total(a@) + total(b@),
{
    let ghost all = a@ + b@;
    proof {
        lemma_total_concat(a@, b@);
    }
    let mut out: Vec<Tile> = Vec::new();
    proof {
        assert(all.subrange(0, 0) =~= Seq::<Tile>::empty());
        assert(sum_map(Seq::<Tile>::empty()) =~= Map::empty());
    }
    let mut k: usize = 0;
    while k < a.len()
        invariant
            all == a@ + b@,
            total(all) <= u64::MAX,
            k <= a@.len(),
            lists_exactly(out@, sum_map(all.subrange(0, k as int))),
            total(out@) == total(all.subrange(0, k as int)),
        decreases a@.len() - k,
    {
        proof {
            assert(all.subrange(0, k + 1).drop_last() =~= all.subrange(0, k as int));
            lemma_total_prefix(all, k + 1);
        }
        add_count(&mut out, &a[k].code, a[k].count, Ghost(sum_map(all.subrange(0, k as int))));
        k += 1;
    }
    let ghost n = a@.len() as int;
    let mut k: usize = 0;
    while k < b.len()
        invariant
            all == a@ + b@,
            n == a@.len(),
            total(all) <= u64::MAX,
            k <= b@.len(),
            lists_exactly(out@, sum_map(all.subrange(0, n + k))),
            total(out@) == total(all.subrange(0, n + k)),
        decreases b@.len() - k,
    {
        proof {
            assert(all.subrange(0, n + k + 1).drop_last() =~= all.subrange(0, n + k));
            assert(all[n + k] == b@[k as int]);
            lemma_total_prefix(all, n + k + 1);
        }
        add_count(&mut out, &b[k].code, b[k].count, Ghost(sum_map(all.subrange(0, n + k))));
        k += 1;
    }
    proof {
        assert(all.subrange(0, all.len() as int) =~= all);
    }
    out
}

proof fn lemma_total_concat(a: Seq<Tile>, b: Seq<Tile>)
    ensures
        total(a + b) == total(a) + total(b),
    decreases b.len(),
{
    if b.len() == 0 {
        assert(a + b =~= a);
    } else {
        assert((a + b).drop_last() =~= a + b.drop_last());
        lemma_total_concat(a, b.drop_last());
    }
}

/// The count of `c` in `counts`, zero where it is absent.
pub open spec fn count_in(counts: Map<Seq<u8>, nat>, c: Seq<u8>) -> nat {
    if counts.contains_key(c) {
        counts[c]
    } else {
        0
    }
}

proof fn lemma_sum_map_concat(s: Seq<Tile>, t: Seq<Tile>)
    ensures
        sum_map(s + t).dom() == sum_map(s).dom().union(sum_map(t).dom()),
        forall|c: Seq<u8>| #[trigger] count_in(sum_map(s + t), c) == count_in(sum_map(s), c) + count_in(sum_map(t), c),
    decreases t.len(),
{
    if t.len() == 0 {
        assert(s + t =~= s);
        assert(sum_map(s).dom().union(sum_map(t).dom()) =~= sum_map(s).dom());
        assert forall|c: Seq<u8>| #[trigger] count_in(sum_map(s + t), c) == count_in(sum_map(s), c) + count_in(sum_map(t), c) by {
            assert(!sum_map(t).contains_key(c));
        }
    } else {
        let t0 = t.drop_last();
        assert((s + t).drop_last() =~= s + t0);
        assert((s + t).last() == t.last());
        lemma_sum_map_concat(s, t0);
        assert forall|c: Seq<u8>| #[trigger] count_in(sum_map(s + t), c) == count_in(sum_map(s), c) + count_in(sum_map(t), c) by {
            assert(count_in(sum_map(s + t0), c) == count_in(sum_map(s), c) + count_in(sum_map(t0), c));
        }
        assert(sum_map(s + t).dom() =~= sum_map(s).dom().union(sum_map(t).dom()));
    }
}

proof fn lemma_sum_map_of_listing(r: Seq<Tile>, counts: Map<Seq<u8>, nat>)
    requires
        lists_exactly(r, counts),
    ensures
        sum_map(r) == counts,
    decreases r.len(),
{
    if r.len() == 0 {
        assert forall|c: Seq<u8>| !counts.contains_key(c) by {
            if counts.contains_key(c) {
                let u = choose|u: int| 0 <= u < r.len() && r[u].code@ == c;
            }
        }
        assert(counts =~= Map::empty());
    } else {
        let r0 = r.drop_last();
        let c = r.last().code@;
        let rest = counts.remove(c);
        assert(counts.contains_key(c));
        assert forall|c2: Seq<u8>| #[trigger] rest.contains_key(c2) implies exists|u: int|
            0 <= u < r0.len() && r0[u].code@ == c2 by {
            let u = choose|u: int| 0 <= u < r.len() && r[u].code@ == c2;
            assert(u != r.len() - 1);
            assert(r0[u] == r[u]);
        }
        assert forall|u: int| 0 <= u < r0.len() implies rest.contains_key(#[trigger] r0[u].code@)
            && rest[r0[u].code@] == r0[u].count as nat by {
            assert(r0[u] == r[u]);
            assert(r[u].code@ != r[r.len() - 1].code@);
        }
        lemma_sum_map_of_listing(r0, rest);
        assert(sum_map(r) =~= counts);
    }
}

proof fn lemma_counts_of_concat(x: Seq<Vec<u8>>, y: Seq<Vec<u8>>)
    ensures
        counts_of(x + y).dom() == counts_of(x).dom().union(counts_of(y).dom()),
        forall|c: Seq<u8>| #[trigger] count_in(counts_of(x + y), c) == count_in(counts_of(x), c) + count_in(counts_of(y), c),
    decreases y.len(),
{
    if y.len() == 0 {
        assert(x + y =~= x);
        assert(counts_of(x).dom().union(counts_of(y).dom()) =~= counts_of(x).dom());
        assert forall|c: Seq<u8>| !code_set(y).contains(c) by {
            assert(y.map_values(|v: Vec<u8>| v@) =~= Seq::<Seq<u8>>::empty());
        }
    } else {
        let y0 = y.drop_last();
        let v = y.last();
        assert(y =~= y0.push(v));
        assert((x + y).drop_last() =~= x + y0);
        assert(x + y =~= (x + y0).push(v));
        lemma_counts_of_concat(x, y0);
        lemma_code_set_push(y0, v);
        lemma_code_set_push(x + y0, v);
        assert forall|c: Seq<u8>| #[trigger] count_in(counts_of(x + y), c) == count_in(counts_of(x), c) + count_in(counts_of(y), c) by {
            if !code_set(x + y0).contains(c) {
                lemma_occurrences_absent(x + y0, c);
            }
            if !code_set(x).contains(c) {
                lemma_occurrences_absent(x, c);
            }
            if !code_set(y0).contains(c) {
                lemma_occurrences_absent(y0, c);
            }
            if !code_set(y).contains(c) {
                lemma_occurrences_absent(y, c);
            }
            if !code_set(x + y).contains(c) {
                lemma_occurrences_absent(x + y, c);
            }
            assert(count_in(counts_of(x + y0), c) == count_in(counts_of(x), c) + count_in(counts_of(y0), c));
        }
        assert(counts_of(x + y).dom() =~= counts_of(x).dom().union(counts_of(y).dom()));
    }
}

/// Counting can be split: counting two parts of the codes separately and
/// merging the results gives the count map of all the codes.
pub proof fn lemma_split_counting(x: Seq<Vec<u8>>, y: Seq<Vec<u8>>, rx: Seq<Tile>, ry: Seq<Tile>)
    requires
        lists_exactly(rx, counts_of(x)),
        lists_exactly(ry, counts_of(y)),
    ensures
        sum_map(rx + ry) == counts_of(x + y),
{
    lemma_sum_map_of_listing(rx, counts_of(x));
    lemma_sum_map_of_listing(ry, counts_of(y));
    lemma_sum_map_concat(rx, ry);
    lemma_counts_of_concat(x, y);
    let lhs = sum_map(rx + ry);
    let rhs = counts_of(x + y);
    assert forall|c: Seq<u8>| lhs.contains_key(c) implies lhs[c] == rhs[c] by {
        assert(count_in(lhs, c) == count_in(rhs, c));
    }
    assert(lhs =~= rhs);
}

} // verus!
