use osmtiler2::{count_codes, resolve_tiles, Tile};

fn tile(code: &str, count: u64) -> Tile {
    Tile { code: code.as_bytes().to_vec(), count }
}

fn sorted(mut tiles: Vec<Tile>) -> Vec<(String, u64)> {
    tiles.sort_by(|a, b| a.code.cmp(&b.code));
    tiles
        .into_iter()
        .map(|t| (String::from_utf8(t.code).unwrap(), t.count))
        .collect()
}

fn pairs(items: &[(&str, u64)]) -> Vec<(String, u64)> {
    items.iter().map(|(c, n)| (c.to_string(), *n)).collect()
}

#[test]
fn both_children_fit_after_parent_overflows() {
    let counts = vec![tile("aa", 500), tile("ab", 1600)];
    let r = resolve_tiles(&counts, 2000, 2);
    assert_eq!(sorted(r), pairs(&[("aa", 500), ("ab", 1600)]));
}

#[test]
fn children_collapse_into_parent() {
    let counts = vec![tile("aa", 500), tile("ab", 600)];
    let r = resolve_tiles(&counts, 2000, 2);
    assert_eq!(sorted(r), pairs(&[("a", 1100)]));
}

#[test]
fn oversized_leaf_is_kept() {
    let counts = vec![tile("zz", 5000)];
    let r = resolve_tiles(&counts, 2000, 2);
    assert_eq!(sorted(r), pairs(&[("zz", 5000)]));
}

#[test]
fn empty_input_gives_no_tiles() {
    let r = resolve_tiles(&Vec::new(), 2000, 11);
    assert!(r.is_empty());
}

#[test]
fn group_equal_to_threshold_is_accepted() {
    let counts = vec![tile("0001", 1000), tile("0010", 1000)];
    let r = resolve_tiles(&counts, 2000, 4);
    assert_eq!(sorted(r), pairs(&[("0", 2000)]));
}

#[test]
fn mixed_levels() {
    // "1" holds 1+2+2+4+6 = 15 > 5; "10" holds 3 <= 5; "11" holds 12 > 5;
    // "110" holds 2 <= 5; "111" holds 10 > 5 and is split into its cells.
    let counts = vec![
        tile("1000", 1),
        tile("1011", 2),
        tile("1100", 2),
        tile("1110", 4),
        tile("1111", 6),
        tile("0101", 5),
    ];
    let r = resolve_tiles(&counts, 5, 4);
    assert_eq!(
        sorted(r),
        pairs(&[("0", 5), ("10", 3), ("110", 2), ("1110", 4), ("1111", 6)])
    );
}

#[test]
fn precision_one() {
    let counts = vec![tile("0", 7), tile("1", 2)];
    let r = resolve_tiles(&counts, 5, 1);
    assert_eq!(sorted(r), pairs(&[("0", 7), ("1", 2)]));
}

fn sample() -> Vec<Tile> {
    vec![
        tile("0000", 3),
        tile("0001", 4),
        tile("0110", 9),
        tile("1000", 1),
        tile("1011", 2),
        tile("1100", 8),
        tile("1101", 7),
        tile("1111", 12),
    ]
}

fn is_prefix(p: &[u8], s: &[u8]) -> bool {
    p.len() <= s.len() && &s[..p.len()] == p
}

#[test]
fn tiles_partition_the_input() {
    let counts = sample();
    let r = resolve_tiles(&counts, 10, 4);
    for c in &counts {
        let n = r.iter().filter(|t| is_prefix(&t.code, &c.code)).count();
        assert_eq!(n, 1);
    }
    for a in &r {
        for b in &r {
            if a.code != b.code {
                assert!(!is_prefix(&a.code, &b.code));
            }
        }
        assert!(counts.iter().any(|c| is_prefix(&a.code, &c.code)));
    }
}

#[test]
fn counts_are_conserved() {
    let counts = sample();
    for t in [0u64, 1, 5, 10, 20, 46, 100] {
        let r = resolve_tiles(&counts, t, 4);
        let out: u64 = r.iter().map(|x| x.count).sum();
        assert_eq!(out, 46);
    }
}

#[test]
fn tiles_respect_threshold_unless_finest() {
    let counts = sample();
    for t in [0u64, 1, 5, 10, 20] {
        for x in resolve_tiles(&counts, t, 4) {
            assert!(x.count <= t || x.code.len() == 4);
        }
    }
}

#[test]
fn order_of_input_does_not_matter() {
    let counts = sample();
    let mut reversed = sample();
    reversed.reverse();
    let a = sorted(resolve_tiles(&counts, 10, 4));
    let b = sorted(resolve_tiles(&reversed, 10, 4));
    let c = sorted(resolve_tiles(&counts, 10, 4));
    assert_eq!(a, b);
    assert_eq!(a, c);
}

#[test]
fn higher_threshold_never_gives_more_tiles() {
    let counts = sample();
    let mut last = usize::MAX;
    for t in [0u64, 1, 3, 5, 8, 10, 13, 20, 30, 46, 100] {
        let n = resolve_tiles(&counts, t, 4).len();
        assert!(n <= last);
        last = n;
    }
    assert_eq!(resolve_tiles(&counts, 30, 4).len(), 2);
    assert_eq!(resolve_tiles(&counts, 0, 4).len(), 8);
}

#[test]
fn count_codes_counts_each_code() {
    let codes: Vec<Vec<u8>> = ["01", "10", "01", "11", "01", "10"]
        .iter()
        .map(|s| s.as_bytes().to_vec())
        .collect();
    let r = count_codes(&codes);
    assert_eq!(sorted(r), pairs(&[("01", 3), ("10", 2), ("11", 1)]));
}

#[test]
fn count_codes_of_nothing_is_empty() {
    assert!(count_codes(&Vec::new()).is_empty());
}

#[test]
fn count_then_resolve() {
    let codes: Vec<Vec<u8>> = ["aa", "ab", "ab", "zz", "zz", "zz"]
        .iter()
        .map(|s| s.as_bytes().to_vec())
        .collect();
    let counts = count_codes(&codes);
    let r = resolve_tiles(&counts, 2, 2);
    assert_eq!(sorted(r), pairs(&[("aa", 1), ("ab", 2), ("zz", 3)]));
}

#[test]
fn merge_sums_matching_codes() {
    let a = vec![tile("00", 3), tile("01", 4)];
    let b = vec![tile("01", 5), tile("11", 1)];
    let r = osmtiler2::merge_counts(&a, &b);
    assert_eq!(sorted(r), pairs(&[("00", 3), ("01", 9), ("11", 1)]));
}

#[test]
fn merge_with_empty_keeps_the_other() {
    let a = vec![tile("10", 2)];
    let r = osmtiler2::merge_counts(&Vec::new(), &a);
    assert_eq!(sorted(r), pairs(&[("10", 2)]));
    let r = osmtiler2::merge_counts(&a, &Vec::new());
    assert_eq!(sorted(r), pairs(&[("10", 2)]));
}

#[test]
fn merge_sums_codes_listed_twice_in_one_part() {
    let a = vec![tile("10", 2), tile("10", 3)];
    let r = osmtiler2::merge_counts(&a, &Vec::new());
    assert_eq!(sorted(r), pairs(&[("10", 5)]));
}

#[test]
fn split_counting_matches_whole() {
    let all: Vec<Vec<u8>> = ["01", "10", "01", "11", "01", "10", "00"]
        .iter()
        .map(|s| s.as_bytes().to_vec())
        .collect();
    let whole = sorted(count_codes(&all));
    for cut in 0..=all.len() {
        let left = count_codes(&all[..cut].to_vec());
        let right = count_codes(&all[cut..].to_vec());
        let merged = sorted(osmtiler2::merge_counts(&left, &right));
        assert_eq!(merged, whole);
    }
}
