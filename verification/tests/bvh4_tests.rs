//! The 4-wide traversal-order table, checked exhaustively against a
//! brute-force near-to-far sort for every ray octant and every
//! topology/axis combination.

use rt_accel::bvh_order::{calc_traversal_code, traversal_order, SplitAxes, TRAVERSAL_CODE_COUNT};

/// The number of populated child slots a code's topology has.
fn child_count(code: u8) -> usize {
    if code < 27 {
        4
    } else if code < 45 {
        3
    } else {
        2
    }
}

/// The synthetic center position of each child slot for a code: offsets
/// of four on the top split axis and one on the sub-split axes, which
/// reproduces the "left child lower on the split axis" layout.
fn slot_centers(code: u8) -> Vec<[i64; 3]> {
    let mut centers: Vec<[i64; 3]> = Vec::new();
    if code < 27 {
        let (top, left, right) = ((code % 3) as usize, ((code / 3) % 3) as usize, ((code / 9) % 3) as usize);
        for (group, sub, su) in [(-4, left, -1), (-4, left, 1), (4, right, -1), (4, right, 1)] {
            let mut c = [0i64; 3];
            c[top] += group;
            c[sub] += su;
            centers.push(c);
        }
    } else if code < 36 {
        let c0 = code - 27;
        let (top, left) = ((c0 % 3) as usize, ((c0 / 3) % 3) as usize);
        for (group, sub, su) in [(-4, left, -1), (-4, left, 1), (4, top, 0)] {
            let mut c = [0i64; 3];
            c[top] += group;
            c[sub] += su;
            centers.push(c);
        }
    } else if code < 45 {
        let c0 = code - 36;
        let (top, right) = ((c0 % 3) as usize, ((c0 / 3) % 3) as usize);
        for (group, sub, su) in [(-4, top, 0), (4, right, -1), (4, right, 1)] {
            let mut c = [0i64; 3];
            c[top] += group;
            c[sub] += su;
            centers.push(c);
        }
    } else {
        let top = ((code - 45) % 3) as usize;
        for group in [-4i64, 4] {
            let mut c = [0i64; 3];
            c[top] += group;
            centers.push(c);
        }
    }
    centers
}

/// For each of the 8 ray octants and each of the 48 topology/axis codes,
/// the decoded traversal order must equal the brute-force near-to-far
/// sort of the node's populated children along rays of that octant.
#[test]
fn order_table_matches_brute_force_sort() {
    for octant in 0u8..8 {
        let dir = [
            if octant & 1 == 1 { -1i64 } else { 1 },
            if octant & 2 == 2 { -1 } else { 1 },
            if octant & 4 == 4 { -1 } else { 1 },
        ];
        for code in 0u8..TRAVERSAL_CODE_COUNT {
            let n = child_count(code);
            let centers = slot_centers(code);
            assert_eq!(centers.len(), n);
            // Signed distance of each slot along the ray direction.
            let dist: Vec<i64> = centers
                .iter()
                .map(|c| c[0] * dir[0] + c[1] * dir[1] + c[2] * dir[2])
                .collect();
            let perm = traversal_order(octant, code);
            let order = [perm.0, perm.1, perm.2, perm.3];
            // The four entries are a permutation of the slot numbers.
            let mut seen = [false; 4];
            for s in order {
                assert!(s < 4);
                assert!(!seen[s as usize]);
                seen[s as usize] = true;
            }
            // Restricted to the populated slots, distances are strictly
            // ascending: the decoded order is the near-to-far sort.
            let populated: Vec<usize> = order
                .iter()
                .map(|s| *s as usize)
                .filter(|s| *s < n)
                .collect();
            assert_eq!(populated.len(), n);
            for w in populated.windows(2) {
                assert!(
                    dist[w[0]] < dist[w[1]],
                    "octant {} code {}: slots {:?} dists {:?}",
                    octant,
                    code,
                    populated,
                    dist
                );
            }
        }
    }
}

/// The traversal code packs topology and axes as documented.
#[test]
fn traversal_codes() {
    assert_eq!(calc_traversal_code(SplitAxes::Full((2, 1, 0))), 2 + 3);
    assert_eq!(calc_traversal_code(SplitAxes::Left((1, 2))), 1 + 6 + 27);
    assert_eq!(calc_traversal_code(SplitAxes::Right((0, 1))), 3 + 36);
    assert_eq!(calc_traversal_code(SplitAxes::TopOnly(2)), 47);
    for code in [
        calc_traversal_code(SplitAxes::Full((0, 0, 0))),
        calc_traversal_code(SplitAxes::Left((2, 2))),
        calc_traversal_code(SplitAxes::Right((2, 2))),
        calc_traversal_code(SplitAxes::TopOnly(0)),
    ] {
        assert!(code < TRAVERSAL_CODE_COUNT);
    }
}
