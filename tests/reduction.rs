use lll_reduction::basis::{check_shape, dot_i128, LatticeError};
use lll_reduction::gram::{floor_div_rem, gram_data, GramData};
use lll_reduction::orthogonal::{dot_wide, gram_schmidt};
use lll_reduction::hadamard::hadamard_ratio_power;
use lll_reduction::lll::{
    copy_basis, is_size_reduced, lll, lovasz_test, round_half_div, sub_mul_column,
};

fn example_columns() -> Vec<Vec<i64>> {
    let rows: [[i64; 6]; 6] = [
        [19, 2, 32, 46, 3, 33],
        [15, 42, 10, 43, 2, 23],
        [12, 35, 22, 18, 4, 45],
        [43, 3, 48, 11, 10, 36],
        [11, 36, 11, 33, 29, 11],
        [40, 38, 31, 3, 41, 29],
    ];
    (0..6).map(|c| (0..6).map(|r| rows[r][c]).collect()).collect()
}

fn identity(n: usize) -> Vec<Vec<i64>> {
    (0..n).map(|c| (0..n).map(|r| if r == c { 1 } else { 0 }).collect()).collect()
}

/// Checks size reduction and the Lovász condition on exact Gram-Schmidt data.
fn assert_reduced(g: &GramData, p: i128, q: i128) {
    let n = g.lam.len();
    for i in 0..n {
        for j in 0..i {
            let (num, den) = g.mu(i, j);
            assert!(2 * num.abs() <= den, "mu({}, {}) = {}/{}", i, j, num, den);
        }
    }
    for k in 1..n {
        let l = g.lam[k][k - 1];
        assert!(q * g.d[k + 1] * g.d[k - 1] >= p * g.d[k] * g.d[k] - q * l * l);
    }
}

#[test]
fn identity_orthogonalizes_to_itself() {
    let b = identity(3);
    let gs = gram_schmidt(&b).unwrap();
    let expected: Vec<Vec<i128>> = identity(3).iter().map(|c| c.iter().map(|&x| x as i128).collect()).collect();
    assert_eq!(gs.ortho, expected);
    let g = gs.gram;
    assert_eq!(g.d, vec![1, 1, 1, 1]);
    for i in 0..3 {
        assert_eq!(g.ortho_norm_sq(i), (1, 1));
        for j in 0..i {
            assert_eq!(g.mu(i, j), (0, 1));
        }
    }
    let h = hadamard_ratio_power(&b).unwrap();
    assert_eq!((h.num, h.den), (1, 1));
    assert_eq!(lll(&b, 3, 4, 100).unwrap(), b);
    assert_eq!(lll(&b, 1, 1, 100).unwrap(), b);
}

#[test]
fn orthogonal_columns_of_different_length() {
    let b = vec![vec![2, 0], vec![0, 1]];
    let h = hadamard_ratio_power(&b).unwrap();
    assert_eq!((h.num, h.den), (4, 4));
    // |b*_1|^2 = 1 < delta * |b*_0|^2 for every delta > 1/4: the columns swap.
    let r = lll(&b, 3, 4, 100).unwrap();
    assert_eq!(r, vec![vec![0, 1], vec![2, 0]]);
    let hr = hadamard_ratio_power(&r).unwrap();
    assert_eq!((hr.num, hr.den), (4, 4));
}

#[test]
fn near_dependent_pair_swaps_once() {
    let b = vec![vec![1, 1], vec![0, 1]];
    let r = lll(&b, 3, 4, 100).unwrap();
    assert_eq!(r, vec![vec![0, 1], vec![1, 0]]);
    let h0 = hadamard_ratio_power(&b).unwrap();
    let h1 = hadamard_ratio_power(&r).unwrap();
    assert_eq!((h0.num, h0.den), (1, 2));
    assert_eq!((h1.num, h1.den), (1, 1));
    // h1 >= h0 as fractions
    assert!(h1.num * h0.den >= h0.num * h1.den);
    // a single swap: the budget of two steps is too small, three suffice
    assert_eq!(lll(&b, 3, 4, 2), Err(LatticeError::StepLimit));
    assert!(lll(&b, 3, 4, 3).is_ok());
}

#[test]
fn six_by_six_example() {
    let b = example_columns();
    let r75 = lll(&b, 3, 4, 1000).unwrap();
    let r99 = lll(&b, 99, 100, 1000).unwrap();
    assert_eq!(
        r75,
        vec![
            vec![13, -5, 10, 5, 0, -9],
            vec![1, 13, 23, -12, 0, -2],
            vec![-3, 14, -15, 17, 7, 1],
            vec![-6, -4, -13, -11, 25, -7],
            vec![21, -3, -22, -19, -10, -18],
            vec![24, -1, -18, -9, 19, 23],
        ]
    );
    assert_eq!(
        r99,
        vec![
            vec![13, -5, 10, 5, 0, -9],
            vec![-3, 14, -15, 17, 7, 1],
            vec![1, 13, 23, -12, 0, -2],
            vec![-6, -4, -13, -11, 25, -7],
            vec![19, 24, -14, -14, -3, -19],
            vec![24, -1, -18, -9, 19, 23],
        ]
    );
    let o75 = gram_schmidt(&r75).unwrap();
    for i in 0..6 {
        for j in 0..6 {
            let dot = dot_wide(&o75.ortho[i], &o75.ortho[j]).unwrap();
            if i == j {
                assert_eq!(dot, o75.gram.d[j] * o75.gram.d[j + 1]);
            } else {
                assert_eq!(dot, 0);
            }
        }
    }
    let g75 = o75.gram;
    let g99 = gram_data(&r99).unwrap();
    assert_eq!(
        g75.d,
        vec![1, 400, 320304, 181111665, 164262340865, 226393458344211, 337202367313568656]
    );
    assert_reduced(&g75, 3, 4);
    assert_reduced(&g99, 99, 100);
    let h0 = hadamard_ratio_power(&b).unwrap();
    let h75 = hadamard_ratio_power(&r75).unwrap();
    let h99 = hadamard_ratio_power(&r99).unwrap();
    // same lattice: same determinant
    assert_eq!(h0.num, 337202367313568656);
    assert_eq!(h75.num, h0.num);
    assert_eq!(h99.num, h0.num);
    assert_eq!(h0.den, 10624523359503048811200);
    assert_eq!(h75.den, 851814778368153600);
    assert_eq!(h99.den, 841904193395865600);
    // equal numerators: a smaller denominator is a larger ratio
    assert!(h99.den <= h75.den && h75.den <= h0.den);
}

#[test]
fn reducing_twice_changes_nothing() {
    let b = example_columns();
    let r = lll(&b, 3, 4, 1000).unwrap();
    assert_eq!(lll(&r, 3, 4, 5).unwrap(), r);
    let s = lll(&b, 99, 100, 1000).unwrap();
    assert_eq!(lll(&s, 99, 100, 5).unwrap(), s);
}

#[test]
fn delta_out_of_range_is_rejected() {
    let b = identity(2);
    assert_eq!(lll(&b, 1, 4, 10), Err(LatticeError::InvalidDelta));
    assert_eq!(lll(&b, 5, 4, 10), Err(LatticeError::InvalidDelta));
    assert_eq!(lll(&b, 0, 0, 10), Err(LatticeError::InvalidDelta));
    assert_eq!(lll(&vec![vec![1, 2, 3]], 1, 8, 10), Err(LatticeError::InvalidDelta));
}

#[test]
fn bad_shapes_are_rejected() {
    let ragged = vec![vec![1, 0], vec![0]];
    assert!(!check_shape(&ragged));
    assert_eq!(lll(&ragged, 3, 4, 10), Err(LatticeError::Dimension));
    assert!(matches!(gram_schmidt(&ragged), Err(LatticeError::Dimension)));
    assert!(matches!(gram_data(&ragged), Err(LatticeError::Dimension)));
    let wide = vec![vec![1, 0], vec![0, 1], vec![1, 1]];
    assert!(!check_shape(&wide));
    assert_eq!(lll(&wide, 3, 4, 10), Err(LatticeError::Dimension));
    let tall = vec![vec![1, 0, 0], vec![0, 1, 0]];
    assert!(check_shape(&tall));
    assert!(matches!(hadamard_ratio_power(&tall), Err(LatticeError::Dimension)));
    assert_eq!(lll(&tall, 3, 4, 10).unwrap(), tall);
}

#[test]
fn dependent_columns_are_degenerate() {
    let b = vec![vec![1, 2], vec![2, 4]];
    assert!(matches!(gram_schmidt(&b), Err(LatticeError::Degenerate)));
    assert!(matches!(hadamard_ratio_power(&b), Err(LatticeError::Degenerate)));
    assert_eq!(lll(&vec![vec![0, 0]], 3, 4, 10), Err(LatticeError::Degenerate));
}

#[test]
fn huge_entries_overflow() {
    let big = i64::MAX;
    let b = vec![vec![big, big, big], vec![big, 0, 0], vec![0, big, 0]];
    assert!(matches!(gram_schmidt(&b), Err(LatticeError::Overflow)));
    assert_eq!(dot_i128(&vec![big, big, big], &vec![big, big, big]), None);
    assert_eq!(dot_i128(&vec![big, big], &vec![big, big]), Some(2 * (big as i128) * (big as i128)));
}

#[test]
fn empty_and_single_column() {
    let empty: Vec<Vec<i64>> = Vec::new();
    assert_eq!(lll(&empty, 3, 4, 0).unwrap(), empty);
    let h = hadamard_ratio_power(&empty).unwrap();
    assert_eq!((h.num, h.den), (1, 1));
    let one = vec![vec![3, 4]];
    assert_eq!(lll(&one, 3, 4, 0).unwrap(), one);
    assert_eq!(gram_schmidt(&one).unwrap().gram.d, vec![1, 25]);
    assert_eq!(gram_schmidt(&one).unwrap().ortho, vec![vec![3i128, 4]]);
}

#[test]
fn rounding_and_division() {
    assert_eq!(floor_div_rem(-7, 3), (-3, 2));
    assert_eq!(floor_div_rem(7, 3), (2, 1));
    assert_eq!(floor_div_rem(i128::MIN, 1), (i128::MIN, 0));
    assert_eq!(round_half_div(3, 2), 2);
    assert_eq!(round_half_div(-3, 2), -2);
    assert_eq!(round_half_div(-1, 2), -1);
    assert_eq!(round_half_div(1, 2), 1);
    assert_eq!(round_half_div(-5, 4), -1);
    assert_eq!(round_half_div(7, 4), 2);
    assert_eq!(round_half_div(i128::MAX, 1), i128::MAX);
    assert!(is_size_reduced(1, 2));
    assert!(is_size_reduced(-1, 2));
    assert!(!is_size_reduced(2, 3));
    assert!(!is_size_reduced(-2, 3));
    assert!(is_size_reduced(i128::MIN / 2 + 1, i128::MAX));
    assert!(!is_size_reduced(i128::MIN / 2, i128::MAX));
}

#[test]
fn column_update_and_lovasz_test() {
    assert_eq!(sub_mul_column(&vec![5, 7], &vec![1, 2], 3), Some(vec![2, 1]));
    assert_eq!(sub_mul_column(&vec![i64::MIN, 0], &vec![1, 0], 1), None);
    assert_eq!(sub_mul_column(&vec![0], &vec![i64::MAX], i128::MAX), None);
    // basis (1,1), (0,1): d = 1, 2, 1 and lam(1, 0) = 1; 4 < 3 * 4 - 4
    assert_eq!(lovasz_test(1, 2, 1, 1, 3, 4), Some(false));
    assert_eq!(lovasz_test(1, 1, 1, 0, 3, 4), Some(true));
    assert_eq!(lovasz_test(i128::MAX, 1, 2, 0, 3, 4), None);
    let b = example_columns();
    let c = copy_basis(&b);
    assert_eq!(c, b);
}

#[test]
fn first_failing_row_decides_the_error() {
    let big = i64::MAX;
    // row 1 is dependent on row 0; row 2 alone would overflow
    let b = vec![vec![1, 0, 0], vec![2, 0, 0], vec![big, big, big]];
    assert!(matches!(gram_schmidt(&b), Err(LatticeError::Degenerate)));
    // row 1 overflows before the dependent row 2 is reached
    let c = vec![vec![1, 0, 0], vec![big, big, big], vec![2, 0, 0]];
    assert!(matches!(gram_schmidt(&c), Err(LatticeError::Overflow)));
}

#[test]
fn hadamard_ratio_is_one_only_when_orthogonal() {
    let ortho = vec![vec![3, 0, 0], vec![0, 0, -5], vec![0, 7, 0]];
    let h = hadamard_ratio_power(&ortho).unwrap();
    assert_eq!(h.num, h.den);
    assert_eq!(h.num, 9 * 25 * 49);
    let skew = vec![vec![2, 1], vec![1, 2]];
    let s = hadamard_ratio_power(&skew).unwrap();
    // det = 3, lengths 5 and 5
    assert_eq!((s.num, s.den), (9, 25));
    assert!(0 < s.num && s.num < s.den);
    // entries this large leave 128 bits in the exact computation
    let big = 3_000_000_000_000_000_000i64;
    let wide = vec![vec![big, big], vec![big, 0]];
    assert!(matches!(hadamard_ratio_power(&wide), Err(LatticeError::Overflow)));
}

#[test]
fn orthogonal_vectors_of_small_bases() {
    // o_0 = b_0, o_1 = d(1) * (b_1 - 1/2 b_0) = (-1, 1)
    let b = vec![vec![1, 1], vec![0, 1]];
    let g = gram_schmidt(&b).unwrap();
    assert_eq!(g.ortho, vec![vec![1i128, 1], vec![-1, 1]]);
    assert_eq!(g.gram.d, vec![1, 2, 1]);
    assert_eq!(g.gram.mu(1, 0), (1, 2));
    // already orthogonal columns: o_i = (product of earlier squared lengths) * b_i
    let c = vec![vec![2, 0], vec![0, 1]];
    let h = gram_schmidt(&c).unwrap();
    assert_eq!(h.ortho, vec![vec![2i128, 0], vec![0, 4]]);
    assert_eq!(h.gram.mu(1, 0), (0, 4));
    assert_eq!(dot_wide(&vec![i128::MAX, 1], &vec![2, 0]), None);
    assert_eq!(dot_wide(&vec![3, -2], &vec![5, 7]), Some(1));
    // the unreduced example: vectors exist and meet every identity
    let e = gram_schmidt(&example_columns()).unwrap();
    assert_eq!(e.ortho[0], vec![19i128, 15, 12, 43, 11, 40]);
    assert_eq!(e.gram.d[6], 337202367313568656);
}
