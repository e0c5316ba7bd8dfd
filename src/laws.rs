//! Properties of the resolved tile set, proved over the model that
//! `resolve_tiles` is specified against.

use vstd::prelude::*;
use vstd::set_lib::{lemma_len_subset, lemma_map_size};
use crate::resolve::{
    fits, lemma_level, lemma_level_shared, lemma_tile_codes_contains, level, level_from,
    resolved, tile_code, tile_codes,
};
use crate::tile::{
    Tile, distinct_codes, group_sum, is_prefix, lists_exactly, total, well_formed_counts,
};

verus! {

/// Partition: every input cell lies in exactly one output tile, namely the
/// tile of its own code; no tile is a prefix of another; every tile covers
/// at least one input cell.
pub proof fn lemma_partition(m: Seq<Tile>, threshold: nat, precision: nat)
    requires
        1 <= precision,
        well_formed_counts(m, precision),
    ensures
        forall|j: int|
            0 <= j < m.len() ==> resolved(m, threshold, precision).contains_key(
                tile_code(m, threshold, precision, #[trigger] m[j].code@),
            ) && is_prefix(tile_code(m, threshold, precision, m[j].code@), m[j].code@),
        forall|j: int, c: Seq<u8>|
            0 <= j < m.len() && resolved(m, threshold, precision).contains_key(c) && #[trigger] is_prefix(
                c,
                m[j].code@,
            ) ==> c == tile_code(m, threshold, precision, m[j].code@),
        forall|c1: Seq<u8>, c2: Seq<u8>|
            #![trigger resolved(m, threshold, precision).contains_key(c1), resolved(m, threshold, precision).contains_key(c2)]
            resolved(m, threshold, precision).contains_key(c1) && resolved(
                m,
                threshold,
                precision,
            ).contains_key(c2) && is_prefix(c1, c2) ==> c1 == c2,
        forall|c: Seq<u8>|
            #[trigger] resolved(m, threshold, precision).contains_key(c) ==> exists|j: int|
                0 <= j < m.len() && is_prefix(c, m[j].code@),
{
    let t = threshold;
    let p = precision;
    assert forall|j: int| 0 <= j < m.len() implies resolved(m, t, p).contains_key(
        tile_code(m, t, p, #[trigger] m[j].code@),
    ) && is_prefix(tile_code(m, t, p, m[j].code@), m[j].code@) by {
        lemma_tile_codes_contains(m, t, p, tile_code(m, t, p, m[j].code@));
        lemma_level(m, t, p, m[j].code@);
    }
    assert forall|j: int, c: Seq<u8>|
        0 <= j < m.len() && resolved(m, t, p).contains_key(c) && #[trigger] is_prefix(
            c,
            m[j].code@,
        ) implies c == tile_code(m, t, p, m[j].code@) by {
        lemma_covering_tile(m, t, p, m[j].code@, c);
    }
    assert forall|c1: Seq<u8>, c2: Seq<u8>|
        #![trigger resolved(m, t, p).contains_key(c1), resolved(m, t, p).contains_key(c2)]
        resolved(m, t, p).contains_key(c1) && resolved(m, t, p).contains_key(c2) && is_prefix(
            c1,
            c2,
        ) implies c1 == c2 by {
        lemma_tile_codes_contains(m, t, p, c2);
        let j2 = choose|j2: int| 0 <= j2 < m.len() && c2 == tile_code(m, t, p, #[trigger] m[j2].code@);
        let k2 = m[j2].code@;
        lemma_level(m, t, p, k2);
        assert(k2.subrange(0, c1.len() as int) =~= c2.subrange(0, c1.len() as int));
        lemma_covering_tile(m, t, p, k2, c1);
    }
    assert forall|c: Seq<u8>| #[trigger] resolved(m, t, p).contains_key(c) implies exists|j: int|
        0 <= j < m.len() && is_prefix(c, m[j].code@) by {
        lemma_tile_codes_contains(m, t, p, c);
        let j = choose|j: int| 0 <= j < m.len() && c == tile_code(m, t, p, #[trigger] m[j].code@);
        lemma_level(m, t, p, m[j].code@);
    }
}

/// An output tile that is a prefix of an input cell `k` is the tile of `k`.
proof fn lemma_covering_tile(m: Seq<Tile>, t: nat, p: nat, k: Seq<u8>, c: Seq<u8>)
    requires
        1 <= p,
        well_formed_counts(m, p),
        k.len() == p,
        resolved(m, t, p).contains_key(c),
        is_prefix(c, k),
    ensures
        c == tile_code(m, t, p, k),
{
    lemma_tile_codes_contains(m, t, p, c);
    let j = choose|j: int| 0 <= j < m.len() && c == tile_code(m, t, p, #[trigger] m[j].code@);
    let k1 = m[j].code@;
    lemma_level(m, t, p, k1);
    lemma_level(m, t, p, k);
    let l = level(m, t, p, k1);
    lemma_level_shared(m, t, p, k1, k, l);
}

/// Threshold: every output tile holds at most `threshold` points, or has a
/// code of full precision.
pub proof fn lemma_threshold(m: Seq<Tile>, threshold: nat, precision: nat)
    requires
        1 <= precision,
        well_formed_counts(m, precision),
    ensures
        forall|c: Seq<u8>| #[trigger]
            resolved(m, threshold, precision).contains_key(c) ==> resolved(m, threshold, precision)[c]
                <= threshold || c.len() == precision,
{
    assert forall|c: Seq<u8>| #[trigger] resolved(m, threshold, precision).contains_key(c) implies resolved(
        m,
        threshold,
        precision,
    )[c] <= threshold || c.len() == precision by {
        lemma_tile_codes_contains(m, threshold, precision, c);
        let j = choose|j: int| 0 <= j < m.len() && c == tile_code(m, threshold, precision, #[trigger] m[j].code@);
        lemma_level(m, threshold, precision, m[j].code@);
    }
}

/// Sum over the codes of `r` of the group sums in `s`.
pub open spec fn groups_total(r: Seq<Tile>, s: Seq<Tile>) -> nat
    decreases r.len(),
{
    if r.len() == 0 {
        0
    } else {
        groups_total(r.drop_last(), s) + group_sum(s, r.last().code@)
    }
}

/// Number of codes of `r` that are a prefix of `code`.
pub open spec fn hits(r: Seq<Tile>, code: Seq<u8>) -> nat
    decreases r.len(),
{
    if r.len() == 0 {
        0
    } else {
        hits(r.drop_last(), code) + if is_prefix(r.last().code@, code) {
            1nat
        } else {
            0nat
        }
    }
}

proof fn lemma_groups_total_last(r: Seq<Tile>, s: Seq<Tile>)
    requires
        s.len() > 0,
    ensures
        groups_total(r, s) == groups_total(r, s.drop_last()) + hits(r, s.last().code@) * s.last().count,
    decreases r.len(),
{
    let c = s.last().count as nat;
    if r.len() == 0 {
        assert(0 * c == 0);
    } else {
        lemma_groups_total_last(r.drop_last(), s);
        let h = hits(r.drop_last(), s.last().code@);
        if is_prefix(r.last().code@, s.last().code@) {
            assert((h + 1) * c == h * c + c) by (nonlinear_arith);
        }
    }
}

proof fn lemma_hits_unique(r: Seq<Tile>, code: Seq<u8>)
    requires
        forall|u1: int, u2: int|
            0 <= u1 < r.len() && 0 <= u2 < r.len() && is_prefix(r[u1].code@, code) && is_prefix(
                r[u2].code@,
                code,
            ) ==> u1 == u2,
    ensures
        hits(r, code) == if exists|u: int| 0 <= u < r.len() && is_prefix(r[u].code@, code) {
            1nat
        } else {
            0nat
        },
    decreases r.len(),
{
    if r.len() > 0 {
        let r0 = r.drop_last();
        assert forall|u1: int, u2: int|
            0 <= u1 < r0.len() && 0 <= u2 < r0.len() && is_prefix(r0[u1].code@, code) && is_prefix(
                r0[u2].code@,
                code,
            ) implies u1 == u2 by {
            assert(r0[u1] == r[u1] && r0[u2] == r[u2]);
        }
        lemma_hits_unique(r0, code);
        if exists|u: int| 0 <= u < r0.len() && is_prefix(r0[u].code@, code) {
            let u = choose|u: int| 0 <= u < r0.len() && is_prefix(r0[u].code@, code);
            assert(r[u] == r0[u]);
        }
        if exists|u: int| 0 <= u < r.len() && is_prefix(r[u].code@, code) {
            let u = choose|u: int| 0 <= u < r.len() && is_prefix(r[u].code@, code);
            if u < r.len() - 1 {
                assert(r0[u] == r[u]);
            }
        }
    }
}

proof fn lemma_groups_total_single_hits(r: Seq<Tile>, s: Seq<Tile>)
    requires
        forall|i: int| 0 <= i < s.len() ==> hits(r, #[trigger] s[i].code@) == 1,
    ensures
        groups_total(r, s) == total(s),
    decreases s.len(),
{
    if s.len() == 0 {
        lemma_groups_total_empty(r, s);
    } else {
        let s0 = s.drop_last();
        assert forall|i: int| 0 <= i < s0.len() implies hits(r, #[trigger] s0[i].code@) == 1 by {
            assert(s0[i] == s[i]);
        }
        lemma_groups_total_single_hits(r, s0);
        lemma_groups_total_last(r, s);
        let h = hits(r, s.last().code@);
        let c = s.last().count as nat;
        assert(h == 1);
        assert(h * c == c) by (nonlinear_arith)
            requires
                h == 1,
        ;
    }
}

proof fn lemma_groups_total_empty(r: Seq<Tile>, s: Seq<Tile>)
    requires
        s.len() == 0,
    ensures
        groups_total(r, s) == 0,
    decreases r.len(),
{
    if r.len() > 0 {
        lemma_groups_total_empty(r.drop_last(), s);
    }
}

proof fn lemma_total_is_groups_total(r: Seq<Tile>, m: Seq<Tile>)
    requires
        forall|u: int| 0 <= u < r.len() ==> #[trigger] r[u].count as nat == group_sum(m, r[u].code@),
    ensures
        total(r) == groups_total(r, m),
    decreases r.len(),
{
    if r.len() > 0 {
        let r0 = r.drop_last();
        assert forall|u: int| 0 <= u < r0.len() implies #[trigger] r0[u].count as nat == group_sum(m, r0[u].code@) by {
            assert(r0[u] == r[u]);
        }
        lemma_total_is_groups_total(r0, m);
        assert(r[r.len() - 1].count as nat == group_sum(m, r[r.len() - 1].code@));
    }
}

/// Conservation: the counts of a listing of the output tiles add up to the
/// counts of the input.
pub proof fn lemma_conservation(m: Seq<Tile>, threshold: nat, precision: nat, r: Seq<Tile>)
    requires
        1 <= precision,
        well_formed_counts(m, precision),
        lists_exactly(r, resolved(m, threshold, precision)),
    ensures
        total(r) == total(m),
{
    let t = threshold;
    let p = precision;
    let target = resolved(m, t, p);
    lemma_partition(m, t, p);
    assert forall|i: int| 0 <= i < m.len() implies hits(r, #[trigger] m[i].code@) == 1 by {
        let k = m[i].code@;
        let c = tile_code(m, t, p, k);
        assert(target.contains_key(c));
        let u = choose|u: int| 0 <= u < r.len() && r[u].code@ == c;
        assert forall|u1: int, u2: int|
            0 <= u1 < r.len() && 0 <= u2 < r.len() && is_prefix(r[u1].code@, k) && is_prefix(
                r[u2].code@,
                k,
            ) implies u1 == u2 by {
            assert(target.contains_key(r[u1].code@));
            assert(target.contains_key(r[u2].code@));
        }
        lemma_hits_unique(r, k);
    }
    lemma_groups_total_single_hits(r, m);
    assert forall|u: int| 0 <= u < r.len() implies #[trigger] r[u].count as nat == group_sum(m, r[u].code@) by {
        assert(target.contains_key(r[u].code@));
    }
    lemma_total_is_groups_total(r, m);
}

proof fn lemma_group_sum_remove(s: Seq<Tile>, idx: int, q: Seq<u8>)
    requires
        0 <= idx < s.len(),
    ensures
        group_sum(s, q) == group_sum(s.remove(idx), q) + if is_prefix(q, s[idx].code@) {
            s[idx].count as nat
        } else {
            0nat
        },
    decreases s.len(),
{
    if idx == s.len() - 1 {
        assert(s.remove(idx) =~= s.drop_last());
    } else {
        assert(s.remove(idx).drop_last() =~= s.drop_last().remove(idx));
        assert(s.remove(idx).last() == s.last());
        lemma_group_sum_remove(s.drop_last(), idx, q);
    }
}

proof fn lemma_group_sum_reordered(a: Seq<Tile>, b: Seq<Tile>, q: Seq<u8>)
    requires
        a.to_multiset() == b.to_multiset(),
    ensures
        group_sum(a, q) == group_sum(b, q),
    decreases a.len(),
{
    broadcast use vstd::seq_lib::group_to_multiset_ensures;

    if a.len() == 0 {
        assert(a.to_multiset().len() == 0);
        assert(b.to_multiset().len() == b.len());
    } else {
        let x = a.last();
        let a0 = a.drop_last();
        assert(a =~= a0.push(x));
        assert(a.to_multiset() =~= a0.to_multiset().insert(x));
        assert(b.to_multiset().count(x) > 0);
        assert(b.contains(x));
        let idx = choose|idx: int| 0 <= idx < b.len() && b[idx] == x;
        assert(b.remove(idx).to_multiset() =~= b.to_multiset().remove(x));
        assert(a0.to_multiset() =~= a.to_multiset().remove(x));
        lemma_group_sum_reordered(a0, b.remove(idx), q);
        lemma_group_sum_remove(b, idx, q);
    }
}

proof fn lemma_level_from_same_sums(
    m1: Seq<Tile>,
    m2: Seq<Tile>,
    t: nat,
    p: nat,
    k: Seq<u8>,
    i: nat,
)
    requires
        forall|q: Seq<u8>| group_sum(m1, q) == group_sum(m2, q),
    ensures
        level_from(m1, t, p, k, i) == level_from(m2, t, p, k, i),
    decreases p - i,
{
    assert(group_sum(m1, k.subrange(0, i as int)) == group_sum(m2, k.subrange(0, i as int)));
    if i < p {
        lemma_level_from_same_sums(m1, m2, t, p, k, i + 1);
    }
}

/// Determinism: the tile set depends on the count map alone, not on the
/// order in which its entries are listed.
pub proof fn lemma_order_independent(m1: Seq<Tile>, m2: Seq<Tile>, threshold: nat, precision: nat)
    requires
        m1.to_multiset() == m2.to_multiset(),
    ensures
        resolved(m1, threshold, precision) == resolved(m2, threshold, precision),
{
    broadcast use vstd::seq_lib::group_to_multiset_ensures;

    let t = threshold;
    let p = precision;
    assert forall|q: Seq<u8>| group_sum(m1, q) == group_sum(m2, q) by {
        lemma_group_sum_reordered(m1, m2, q);
    }
    assert forall|k: Seq<u8>| tile_code(m1, t, p, k) == tile_code(m2, t, p, k) by {
        lemma_level_from_same_sums(m1, m2, t, p, k, 1);
    }
    assert forall|c: Seq<u8>| tile_codes(m1, t, p).contains(c) implies tile_codes(m2, t, p).contains(c) by {
        lemma_tile_codes_contains(m1, t, p, c);
        lemma_tile_codes_contains(m2, t, p, c);
        let j = choose|j: int| 0 <= j < m1.len() && c == tile_code(m1, t, p, #[trigger] m1[j].code@);
        assert(m1.to_multiset().count(m1[j]) > 0);
        assert(m2.contains(m1[j]));
        let j2 = choose|j2: int| 0 <= j2 < m2.len() && m2[j2] == m1[j];
        assert(c == tile_code(m2, t, p, m2[j2].code@));
    }
    assert forall|c: Seq<u8>| tile_codes(m2, t, p).contains(c) implies tile_codes(m1, t, p).contains(c) by {
        lemma_tile_codes_contains(m1, t, p, c);
        lemma_tile_codes_contains(m2, t, p, c);
        let j = choose|j: int| 0 <= j < m2.len() && c == tile_code(m2, t, p, #[trigger] m2[j].code@);
        assert(m2.to_multiset().count(m2[j]) > 0);
        assert(m1.contains(m2[j]));
        let j1 = choose|j1: int| 0 <= j1 < m1.len() && m1[j1] == m2[j];
        assert(c == tile_code(m1, t, p, m1[j1].code@));
    }
    assert(tile_codes(m1, t, p) =~= tile_codes(m2, t, p));
    assert(resolved(m1, t, p) =~= resolved(m2, t, p));
}

/// A higher threshold never puts a cell in a finer tile.
proof fn lemma_level_antitone(m: Seq<Tile>, t1: nat, t2: nat, p: nat, k: Seq<u8>)
    requires
        1 <= p,
        t1 <= t2,
    ensures
        level(m, t2, p, k) <= level(m, t1, p, k),
{
    lemma_level(m, t1, p, k);
    lemma_level(m, t2, p, k);
    let l1 = level(m, t1, p, k);
    if l1 < p {
        assert(fits(m, t2, k, l1));
    }
}

/// A listing of a map has one entry per key.
pub proof fn lemma_listing_len(r: Seq<Tile>, target: Map<Seq<u8>, nat>)
    requires
        lists_exactly(r, target),
    ensures
        target.dom().finite(),
        r.len() == target.dom().len(),
{
    let codes = r.map_values(|x: Tile| x.code@);
    assert forall|a: int, b: int| 0 <= a < codes.len() && 0 <= b < codes.len() && a != b implies codes[a]
        != codes[b] by {}
    codes.unique_seq_to_set();
    assert forall|c: Seq<u8>| codes.to_set().contains(c) <==> target.dom().contains(c) by {
        if target.dom().contains(c) {
            let u = choose|u: int| 0 <= u < r.len() && r[u].code@ == c;
            assert(codes[u] == c);
        }
        if codes.to_set().contains(c) {
            let u = choose|u: int| 0 <= u < codes.len() && codes[u] == c;
            assert(target.contains_key(r[u].code@));
        }
    }
    assert(codes.to_set() =~= target.dom());
}

/// Monotonic coarsening: raising the threshold never yields more tiles.
///
/// `r1` and `r2` list the tiles for the lower and the higher threshold.
pub proof fn lemma_coarser_threshold(
    m: Seq<Tile>,
    t1: nat,
    t2: nat,
    precision: nat,
    r1: Seq<Tile>,
    r2: Seq<Tile>,
)
    requires
        1 <= precision,
        well_formed_counts(m, precision),
        t1 <= t2,
        lists_exactly(r1, resolved(m, t1, precision)),
        lists_exactly(r2, resolved(m, t2, precision)),
    ensures
        resolved(m, t2, precision).dom().len() <= resolved(m, t1, precision).dom().len(),
        r2.len() <= r1.len(),
{
    lemma_listing_len(r1, resolved(m, t1, precision));
    lemma_listing_len(r2, resolved(m, t2, precision));
    broadcast use vstd::seq_lib::seq_to_set_is_finite;

    let p = precision;
    let d1 = tile_codes(m, t1, p);
    let d2 = tile_codes(m, t2, p);
    assert(resolved(m, t1, p).dom() == d1);
    assert(resolved(m, t2, p).dom() == d2);
    let pick = |c: Seq<u8>| choose|j: int| 0 <= j < m.len() && c == tile_code(m, t2, p, #[trigger] m[j].code@);
    let g = |c: Seq<u8>| tile_code(m, t1, p, m[pick(c)].code@);
    assert forall|c: Seq<u8>| d2.contains(c) implies 0 <= pick(c) < m.len() && c == tile_code(
        m,
        t2,
        p,
        m[pick(c)].code@,
    ) && d1.contains(g(c)) by {
        lemma_tile_codes_contains(m, t2, p, c);
        lemma_tile_codes_contains(m, t1, p, g(c));
    }
    assert forall|c: Seq<u8>, c2: Seq<u8>| d2.contains(c) && d2.contains(c2) && #[trigger] g(c) == #[trigger] g(
        c2,
    ) implies c == c2 by {
        let k = m[pick(c)].code@;
        let k2 = m[pick(c2)].code@;
        lemma_level(m, t1, p, k);
        lemma_level(m, t1, p, k2);
        let l1 = level(m, t1, p, k);
        assert(k.subrange(0, l1 as int) == k2.subrange(0, l1 as int));
        lemma_level_antitone(m, t1, t2, p, k);
        lemma_level(m, t2, p, k);
        lemma_level_shared(m, t2, p, k, k2, l1);
    }
    let img = d2.map(g);
    assert(img.subset_of(d1));
    lemma_map_size(d2, img, g);
    lemma_len_subset(img, d1);
}

} // verus!
