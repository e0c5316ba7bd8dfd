//! The density-bounded tile resolver.
//!
//! Levels are tried from the coarsest (one byte of code) to the finest. At
//! each level the still active cells are grouped by their prefix of that
//! length; a group whose total fits under the threshold becomes one tile and
//! leaves the active set, the others are split again at the next level. At
//! the finest level every group is a single cell and becomes a tile whatever
//! its count.

use vstd::prelude::*;
use crate::laws::lemma_conservation;
use crate::tile::{
    Tile, distinct_codes, group_sum, is_prefix, lists_exactly, lemma_total_prefix, prefix_of, same_code, same_prefix,
    total, well_formed_counts,
};

verus! {

/// The group of `k` at level `i` fits under the threshold.
pub open spec fn fits(m: Seq<Tile>, threshold: nat, k: Seq<u8>, i: nat) -> bool {
    group_sum(m, k.subrange(0, i as int)) <= threshold
}

/// The first level from `i` on at which the group of `k` fits, or the
/// finest level if none before it does.
pub open spec fn level_from(m: Seq<Tile>, threshold: nat, precision: nat, k: Seq<u8>, i: nat) -> nat
    decreases precision - i,
{
    if i >= precision {
        precision
    } else if fits(m, threshold, k, i) {
        i
    } else {
        level_from(m, threshold, precision, k, i + 1)
    }
}

/// The level of the tile that covers the finest cell `k`.
pub open spec fn level(m: Seq<Tile>, threshold: nat, precision: nat, k: Seq<u8>) -> nat {
    level_from(m, threshold, precision, k, 1)
}

/// The code of the tile that covers the finest cell `k`.
pub open spec fn tile_code(m: Seq<Tile>, threshold: nat, precision: nat, k: Seq<u8>) -> Seq<u8> {
    k.subrange(0, level(m, threshold, precision, k) as int)
}

/// The codes of all output tiles.
pub open spec fn tile_codes(m: Seq<Tile>, threshold: nat, precision: nat) -> Set<Seq<u8>> {
    m.map_values(|x: Tile| tile_code(m, threshold, precision, x.code@)).to_set()
}

/// The output tile set, as a map from tile code to the number of points in
/// the tile.
pub open spec fn resolved(m: Seq<Tile>, threshold: nat, precision: nat) -> Map<Seq<u8>, nat> {
    tile_codes(m, threshold, precision).mk_map(|c: Seq<u8>| group_sum(m, c))
}

pub proof fn lemma_tile_codes_contains(m: Seq<Tile>, threshold: nat, precision: nat, c: Seq<u8>)
    ensures
        tile_codes(m, threshold, precision).contains(c) <==> exists|j: int|
            0 <= j < m.len() && c == tile_code(m, threshold, precision, #[trigger] m[j].code@),
{
    let s = m.map_values(|x: Tile| tile_code(m, threshold, precision, x.code@));
    if tile_codes(m, threshold, precision).contains(c) {
        assert(s.contains(c));
        let j = choose|j: int| 0 <= j < s.len() && s[j] == c;
        assert(c == tile_code(m, threshold, precision, m[j].code@));
    }
    if exists|j: int| 0 <= j < m.len() && c == tile_code(m, threshold, precision, #[trigger] m[j].code@) {
        let j = choose|j: int| 0 <= j < m.len() && c == tile_code(m, threshold, precision, #[trigger] m[j].code@);
        assert(s[j] == c);
        assert(s.contains(c));
    }
}

/// What the level is: no group before it fits, and it fits unless it is the
/// finest level.
pub proof fn lemma_level_from(m: Seq<Tile>, threshold: nat, precision: nat, k: Seq<u8>, i: nat)
    requires
        i <= precision,
    ensures
        i <= level_from(m, threshold, precision, k, i) <= precision,
        forall|j: nat| i <= j < level_from(m, threshold, precision, k, i) ==> !fits(m, threshold, k, j),
        level_from(m, threshold, precision, k, i) < precision ==> fits(
            m,
            threshold,
            k,
            level_from(m, threshold, precision, k, i),
        ),
    decreases precision - i,
{
    if i < precision && !fits(m, threshold, k, i) {
        lemma_level_from(m, threshold, precision, k, i + 1);
    }
}

pub proof fn lemma_level(m: Seq<Tile>, threshold: nat, precision: nat, k: Seq<u8>)
    requires
        1 <= precision,
    ensures
        1 <= level(m, threshold, precision, k) <= precision,
        forall|j: nat| 1 <= j < level(m, threshold, precision, k) ==> !fits(m, threshold, k, j),
        level(m, threshold, precision, k) < precision ==> fits(m, threshold, k, level(m, threshold, precision, k)),
{
    lemma_level_from(m, threshold, precision, k, 1);
}

/// Two cells that share their first `i` bytes have the same level, or both
/// have a level past `i`.
pub proof fn lemma_level_shared(
    m: Seq<Tile>,
    threshold: nat,
    precision: nat,
    k1: Seq<u8>,
    k2: Seq<u8>,
    i: nat,
)
    requires
        1 <= i <= precision,
        k1.len() == precision,
        k2.len() == precision,
        k1.subrange(0, i as int) == k2.subrange(0, i as int),
    ensures
        level(m, threshold, precision, k1) == level(m, threshold, precision, k2) || (level(
            m,
            threshold,
            precision,
            k1,
        ) > i && level(m, threshold, precision, k2) > i),
{
    lemma_level(m, threshold, precision, k1);
    lemma_level(m, threshold, precision, k2);
    let l1 = level(m, threshold, precision, k1);
    let l2 = level(m, threshold, precision, k2);
    assert forall|j: nat| 1 <= j <= i implies k1.subrange(0, j as int) == k2.subrange(0, j as int) by {
        assert(k1.subrange(0, j as int) =~= k1.subrange(0, i as int).subrange(0, j as int));
        assert(k2.subrange(0, j as int) =~= k2.subrange(0, i as int).subrange(0, j as int));
    }
    if l1 < l2 && l1 <= i {
        assert(fits(m, threshold, k1, l1) == fits(m, threshold, k2, l1));
    }
    if l2 < l1 && l2 <= i {
        assert(fits(m, threshold, k1, l2) == fits(m, threshold, k2, l2));
    }
}

/// Sum of the counts of the entries among the first `n` that are still
/// active and whose code has `p` as a prefix.
pub open spec fn active_sum(m: Seq<Tile>, active: Seq<bool>, p: Seq<u8>, n: nat) -> nat
    decreases n,
{
    if n == 0 {
        0
    } else {
        active_sum(m, active, p, (n - 1) as nat) + if active[n - 1] && is_prefix(p, m[n - 1].code@) {
            m[n - 1].count as nat
        } else {
            0nat
        }
    }
}

/// Where every entry of the group is active, the active sum is the whole
/// group's sum.
proof fn lemma_active_sum_whole(m: Seq<Tile>, active: Seq<bool>, p: Seq<u8>, n: nat)
    requires
        n <= m.len(),
        active.len() == m.len(),
        forall|j: int| 0 <= j < n && is_prefix(p, #[trigger] m[j].code@) ==> active[j],
    ensures
        active_sum(m, active, p, n) == group_sum(m.subrange(0, n as int), p),
    decreases n,
{
    if n > 0 {
        lemma_active_sum_whole(m, active, p, (n - 1) as nat);
        assert(m.subrange(0, n as int).drop_last() =~= m.subrange(0, n - 1));
    }
}

proof fn lemma_active_sum_le(m: Seq<Tile>, active: Seq<bool>, p: Seq<u8>, n: nat)
    requires
        n <= m.len(),
        active.len() == m.len(),
    ensures
        active_sum(m, active, p, n) <= total(m.subrange(0, n as int)),
    decreases n,
{
    if n > 0 {
        lemma_active_sum_le(m, active, p, (n - 1) as nat);
        assert(m.subrange(0, n as int).drop_last() =~= m.subrange(0, n - 1));
    }
}

/// Total count of the active entries whose first `i` bytes are those of
/// `code`.
fn active_group_total(counts: &Vec<Tile>, active: &Vec<bool>, code: &Vec<u8>, i: usize) -> (s: u64)
    requires
        active@.len() == counts@.len(),
        i <= code@.len(),
        forall|j: int| 0 <= j < counts@.len() ==> i <= #[trigger] counts@[j].code@.len(),
        total(counts@) <= u64::MAX,
    ensures
        s == active_sum(counts@, active@, code@.subrange(0, i as int), counts@.len()),
{
    let ghost q = code@.subrange(0, i as int);
    let mut s: u64 = 0;
    let mut j: usize = 0;
    while j < counts.len()
        invariant
            j <= counts@.len(),
            active@.len() == counts@.len(),
            i <= code@.len(),
            forall|j: int| 0 <= j < counts@.len() ==> i <= #[trigger] counts@[j].code@.len(),
            total(counts@) <= u64::MAX,
            q == code@.subrange(0, i as int),
            s == active_sum(counts@, active@, q, j as nat),
        decreases counts@.len() - j,
    {
        let hit = active[j] && same_prefix(&counts[j].code, code, i);
        assert(is_prefix(q, counts@[j as int].code@) == (counts@[j as int].code@.subrange(0, i as int) == q));
        assert(active_sum(counts@, active@, q, (j + 1) as nat) == s + if hit {
            counts@[j as int].count as nat
        } else {
            0nat
        });
        if hit {
            proof {
                lemma_active_sum_le(counts@, active@, q, (j + 1) as nat);
                lemma_total_prefix(counts@, j + 1);
            }
            s = s + counts[j].count;
        }
        j += 1;
    }
    s
}

/// Whether some tile of `tiles` has the code `code`.
fn has_tile(tiles: &Vec<Tile>, code: &Vec<u8>) -> (r: bool)
    ensures
        r == exists|u: int| 0 <= u < tiles@.len() && tiles@[u].code@ == code@,
{
    let mut u: usize = 0;
    while u < tiles.len()
        invariant
            u <= tiles@.len(),
            forall|v: int| 0 <= v < u ==> tiles@[v].code@ != code@,
        decreases tiles@.len() - u,
    {
        if same_code(&tiles[u].code, code) {
            return true;
        }
        u += 1;
    }
    false
}

/// Resolves finest-level counts into the output tile set.
///
/// `counts` holds one entry per occupied cell at `precision`; the result
/// lists each tile of `resolved` once: the coarsest prefix of a cell whose
/// group total is at most `threshold`, or the cell itself where no prefix
/// fits.
pub fn resolve_tiles(counts: &Vec<Tile>, threshold: u64, precision: usize) -> (r: Vec<Tile>)
    requires
        1 <= precision,
        well_formed_counts(counts@, precision as nat),
        total(counts@) <= u64::MAX,
    ensures
        lists_exactly(r@, resolved(counts@, threshold as nat, precision as nat)),
        total(r@) == total(counts@),
{
    let ghost m = counts@;
    let ghost t = threshold as nat;
    let ghost p = precision as nat;
    let n = counts.len();
    // The active set, as a mask over `counts`: an entry leaves it once a
    // tile covers its cell.
    let mut active: Vec<bool> = Vec::new();
    let mut j: usize = 0;
    while j < n
        invariant
            j <= n == m.len(),
            active@.len() == j,
            forall|j2: int| 0 <= j2 < j ==> active@[j2],
        decreases n - j,
    {
        active.push(true);
        j += 1;
    }
    proof {
        assert forall|j2: int| 0 <= j2 < n implies level(m, t, p, #[trigger] m[j2].code@) >= 1 by {
            lemma_level(m, t, p, m[j2].code@);
        }
    }
    let mut tiles: Vec<Tile> = Vec::new();
    let mut d: usize = 0;
    while d < precision
        invariant
            m == counts@,
            n == m.len(),
            t == threshold as nat,
            p == precision as nat,
            1 <= precision,
            well_formed_counts(m, p),
            total(m) <= u64::MAX,
            d <= precision,
            active@.len() == n,
            forall|j2: int| 0 <= j2 < n ==> active@[j2] == (level(m, t, p, #[trigger] m[j2].code@) > d),
            distinct_codes(tiles@),
            forall|u: int|
                0 <= u < tiles@.len() ==> tile_codes(m, t, p).contains(#[trigger] tiles@[u].code@)
                    && tiles@[u].count as nat == group_sum(m, tiles@[u].code@),
            forall|j2: int|
                0 <= j2 < n && level(m, t, p, #[trigger] m[j2].code@) <= d ==> exists|u: int|
                    0 <= u < tiles@.len() && tiles@[u].code@ == tile_code(m, t, p, m[j2].code@),
        decreases precision - d,
    {
        let i = d + 1;
        // The mask for the next level; the current one stays as it is while
        // this level's groups are classified.
        let mut next: Vec<bool> = Vec::new();
        let mut j: usize = 0;
        while j < n
            invariant
                m == counts@,
                n == m.len(),
                t == threshold as nat,
                p == precision as nat,
                1 <= precision,
                well_formed_counts(m, p),
                total(m) <= u64::MAX,
                1 <= i <= precision,
                i == d + 1,
                j <= n,
                active@.len() == n,
                forall|j2: int| 0 <= j2 < n ==> active@[j2] == (level(m, t, p, #[trigger] m[j2].code@) >= i),
                next@.len() == j,
                forall|j2: int| 0 <= j2 < j ==> next@[j2] == (level(m, t, p, #[trigger] m[j2].code@) >= i + 1),
                distinct_codes(tiles@),
                forall|u: int|
                    0 <= u < tiles@.len() ==> tile_codes(m, t, p).contains(#[trigger] tiles@[u].code@)
                        && tiles@[u].count as nat == group_sum(m, tiles@[u].code@),
                forall|j2: int|
                    0 <= j2 < n && (level(m, t, p, #[trigger] m[j2].code@) < i || (level(m, t, p, m[j2].code@) == i && j2 < j)) ==> exists|u: int|
                        0 <= u < tiles@.len() && tiles@[u].code@ == tile_code(m, t, p, m[j2].code@),
            decreases n - j,
        {
            proof {
                lemma_level(m, t, p, m[j as int].code@);
            }
            if active[j] {
                let ghost k = m[j as int].code@;
                let ghost q = k.subrange(0, i as int);
                proof {
                    assert forall|j2: int| 0 <= j2 < n && is_prefix(q, #[trigger] m[j2].code@) implies active@[j2] by {
                        lemma_level_shared(m, t, p, k, m[j2].code@, i as nat);
                    }
                    lemma_active_sum_whole(m, active@, q, n as nat);
                    assert(m.subrange(0, n as int) =~= m);
                }
                let s = active_group_total(counts, &active, &counts[j].code, i);
                // At the finest level a group is a single cell: it becomes a
                // tile even where it holds more than the threshold.
                if s <= threshold || i == precision {
                    if s <= threshold {
                        assert(fits(m, t, k, i as nat));
                    }
                    assert(level(m, t, p, k) == i);
                    assert(tile_code(m, t, p, k) == q);
                    let code = prefix_of(&counts[j].code, i);
                    // Another member of the group may have emitted it already.
                    if !has_tile(&tiles, &code) {
                        proof {
                            lemma_tile_codes_contains(m, t, p, q);
                        }
                        let ghost old_tiles = tiles@;
                        tiles.push(Tile { code, count: s });
                        assert(tiles@[tiles@.len() - 1].code@ == q);
                        assert forall|u: int| 0 <= u < old_tiles.len() implies tiles@[u] == old_tiles[u] by {}
                    }
                    next.push(false);
                } else {
                    assert(level(m, t, p, k) >= i + 1);
                    next.push(true);
                }
            } else {
                next.push(false);
            }
            j += 1;
        }
        active = next;
        d += 1;
    }
    proof {
        let target = resolved(m, t, p);
        assert forall|c: Seq<u8>| #[trigger] target.contains_key(c) implies exists|u: int|
            0 <= u < tiles@.len() && tiles@[u].code@ == c by {
            lemma_tile_codes_contains(m, t, p, c);
            let j2 = choose|j2: int| 0 <= j2 < m.len() && c == tile_code(m, t, p, #[trigger] m[j2].code@);
            lemma_level(m, t, p, m[j2].code@);
        }
        lemma_conservation(m, t, p, tiles@);
    }
    tiles
}

} // verus!
