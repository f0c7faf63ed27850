//! Light selection: the flat array's exact probabilities on a concrete
//! scene, the tree's deterministic probabilities and empirical
//! frequencies, degenerate scenes, and non-zero energy preservation.

use rt_accel::accel::{LightAccel, LightInfo, SurfaceClosure, UniformClosure, PDF_ONE};
use rt_accel::bbox::BBox;
use rt_accel::light_array::LightArray;
use rt_accel::light_tree::LightTree;
use rt_accel::math::{Normal, Point, Vector};

fn light_at(x: i64, y: i64, z: i64, energy: u64) -> LightInfo {
    LightInfo {
        bound: BBox::from_points(Point::new(x - 1, y - 1, z - 1), Point::new(x + 1, y + 1, z + 1)),
        energy,
    }
}

fn three_lights() -> Vec<LightInfo> {
    // Well-separated positions, energy estimates [1, 2, 9].
    vec![
        light_at(-1000, 0, 0, 1),
        light_at(0, 1000, 0, 2),
        light_at(900, -900, 50, 9),
    ]
}

fn frac(n: f64) -> u64 {
    (n * PDF_ONE as f64) as u64
}

/// Three lights with energies [1, 2, 9]: a scalar of 0.05 selects the
/// heavy light (index 2) with probability exactly 9/12, and a scalar of
/// 0.95 falls through the cumulative weights to index 0.
#[test]
fn flat_selection_probabilities() {
    let arr = LightArray::from_lights(three_lights());
    assert_eq!(arr.approximate_energy(), 12);

    let (idx, pdf, resid) = arr.select(frac(0.05)).unwrap();
    assert_eq!(idx, 2);
    assert_eq!(pdf, 9 * PDF_ONE / 12);
    assert!(resid < PDF_ONE);

    let (idx2, pdf2, _resid2) = arr.select(frac(0.95)).unwrap();
    assert_eq!(idx2, 0);
    assert_eq!(pdf2, PDF_ONE / 12);

    // A scalar in the middle band picks index 1 with probability 2/12.
    let (idx3, pdf3, _r3) = arr.select(frac(0.80)).unwrap();
    assert_eq!(idx3, 1);
    assert_eq!(pdf3, 2 * PDF_ONE / 12);
}

/// An empty light set: selection yields nothing for any scalar, and the
/// energy estimate is zero — for the flat array and the tree alike.
#[test]
fn empty_light_set() {
    let arr = LightArray::from_lights(Vec::new());
    assert_eq!(arr.approximate_energy(), 0);
    for n in [0u64, 1, PDF_ONE / 2, PDF_ONE - 1] {
        assert!(arr.select(n).is_none());
    }

    let tree = LightTree::from_lights(Vec::new());
    assert_eq!(tree.approximate_energy(), 0);
    let sc = UniformClosure;
    for n in [0u64, 1, PDF_ONE / 2, PDF_ONE - 1] {
        assert!(tree
            .select(
                Vector::new(0, 0, -1),
                Point::new(0, 0, 0),
                Normal::new(0, 0, 1),
                Normal::new(0, 0, 1),
                &sc,
                0,
                n
            )
            .is_none());
    }
}

/// All-zero energies: the tree holds lights but none can contribute, so
/// selection yields nothing.
#[test]
fn zero_energy_lights() {
    let lights = vec![light_at(0, 0, 0, 0), light_at(10, 0, 0, 0)];
    let tree = LightTree::from_lights(lights);
    assert_eq!(tree.approximate_energy(), 0);
    let sc = UniformClosure;
    assert!(tree
        .select(
            Vector::new(0, 0, -1),
            Point::new(0, 0, 0),
            Normal::new(0, 0, 1),
            Normal::new(0, 0, 1),
            &sc,
            0,
            0
        )
        .is_none());
}

/// Non-zero preservation: as long as one light's estimate is non-zero,
/// the aggregate estimate is non-zero.
#[test]
fn nonzero_energy_preserved() {
    let lights = vec![light_at(0, 0, 0, 0), light_at(10, 0, 0, 5), light_at(-10, 5, 0, 0)];
    let tree = LightTree::from_lights(lights);
    assert!(tree.approximate_energy() > 0);
    assert_eq!(tree.approximate_energy(), 5);
}

/// The tree's selection probability is consistent: over many independent
/// uniform scalars the empirical frequency of each light matches the
/// probability the tree itself reports for it, and repeated calls with
/// one scalar are deterministic.
#[test]
fn tree_selection_frequencies() {
    let tree = LightTree::from_lights(three_lights());
    assert_eq!(tree.approximate_energy(), 12);
    let sc = UniformClosure;
    let inc = Vector::new(0, 0, -1);
    let pos = Point::new(0, 0, 0);
    let nor = Normal::new(0, 0, 1);

    let trials: u64 = 4096;
    let mut counts = [0u64; 3];
    let mut pdfs = [0u64; 3];
    for t in 0..trials {
        let n = t * (PDF_ONE / trials) + 7;
        let (idx, pdf, resid) = tree.select(inc, pos, nor, nor, &sc, 0, n).unwrap();
        assert!(idx < 3);
        assert!(pdf > 0 && pdf <= PDF_ONE);
        assert!(resid < PDF_ONE);
        counts[idx] += 1;
        pdfs[idx] = pdf;
        // Determinism: the same inputs give the same outcome.
        let again = tree.select(inc, pos, nor, nor, &sc, 0, n).unwrap();
        assert_eq!(again, (idx, pdf, resid));
    }
    for i in 0..3 {
        assert!(counts[i] > 0, "light {} never selected", i);
        let freq = counts[i] as f64 / trials as f64;
        let p = pdfs[i] as f64 / PDF_ONE as f64;
        assert!(
            (freq - p).abs() < 0.02,
            "light {}: frequency {} vs reported probability {}",
            i,
            freq,
            p
        );
    }
}

/// With equal weights below an internal node the scalar is rescaled into
/// a fresh uniform scalar: descending with the residual re-yields a
/// uniform spread.
#[test]
fn residual_scalar_in_range() {
    let tree = LightTree::from_lights(vec![
        light_at(-50, 0, 0, 4),
        light_at(50, 0, 0, 4),
        light_at(0, 60, 0, 4),
        light_at(0, -60, 0, 4),
    ]);
    let sc = UniformClosure;
    for t in 0..257u64 {
        let n = t * (PDF_ONE / 257);
        let (_idx, pdf, resid) = tree
            .select(
                Vector::new(0, 0, -1),
                Point::new(0, 0, 0),
                Normal::new(0, 0, 1),
                Normal::new(0, 0, 1),
                &sc,
                0,
                n,
            )
            .unwrap();
        assert!(resid < PDF_ONE);
        assert!(pdf > 0);
    }
}

/// Picks a light through the shared capability, whatever stands behind
/// it.
fn pick_through_capability<A: LightAccel, C: SurfaceClosure>(
    accel: &A,
    sc: &C,
    n: u64,
) -> Option<(usize, u64, u64)> {
    accel.select(
        Vector::new(0, 0, -1),
        Point::new(0, 0, 0),
        Normal::new(0, 0, 1),
        Normal::new(0, 0, 1),
        sc,
        0,
        n,
    )
}

/// Both samplers implement the selection capability and agree on the
/// degenerate cases through it.
#[test]
fn capability_dispatch() {
    let sc = UniformClosure;
    let arr = LightArray::from_lights(three_lights());
    let tree = LightTree::from_lights(three_lights());
    assert_eq!(LightAccel::approximate_energy(&arr), 12);
    assert_eq!(LightAccel::approximate_energy(&tree), 12);

    let picked = pick_through_capability(&arr, &sc, frac(0.05)).unwrap();
    assert_eq!(picked.0, 2);

    let picked_tree = pick_through_capability(&tree, &sc, frac(0.05)).unwrap();
    assert!(picked_tree.0 < 3);
    assert!(picked_tree.1 > 0 && picked_tree.1 <= PDF_ONE);

    let empty = LightArray::from_lights(Vec::new());
    assert!(pick_through_capability(&empty, &sc, 0).is_none());
}
