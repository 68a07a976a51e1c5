use wfc_rust::domain::LabelDomain;
use wfc_rust::matrix::{Matrix, Rotation, SubMatrix};
use wfc_rust::overlap::{overlaps, prune_rules};
use wfc_rust::rules::RuleTable;

fn check_rules(result: &RuleTable, expected: &[((usize, usize), Vec<u32>)], directions: usize) {
    for d in 0..directions {
        for l in 0..result.labels {
            let want = expected
                .iter()
                .find(|(key, _)| *key == (d, l))
                .map(|(_, counts)| LabelDomain::from_counts(counts));
            assert_eq!(result.get(d, l), want.as_ref(), "direction {} label {}", d, l);
        }
    }
}

#[test]
fn test_sub_matrix() {
    let v = vec![0, 1, 2, 3, 4, 5, 6, 7, 8];
    let matrix = Matrix::from_row_slice(3, 3, &v);
    let target_a = Matrix::from_row_slice(1, 2, &[4, 5]);
    let target_b = Matrix::from_row_slice(2, 2, &[1, 2, 4, 5]);
    let target_c = Matrix::from_row_slice(1, 3, &[0, 1, 2]);
    let target_d = Matrix::from_row_slice(1, 1, &[4]);
    assert_eq!(matrix.sub_matrix((0, 0), (3, 3)), matrix);
    assert_eq!(matrix.sub_matrix((1, 1), (2, 1)), target_a);
    assert_eq!(matrix.sub_matrix((1, 0), (2, 2)), target_b);
    assert_eq!(matrix.sub_matrix((0, 0), (3, 1)), target_c);
    assert_eq!(matrix.sub_matrix((1, 1), (1, 1)), target_d);
}

#[test]
fn sub_matrix_is_cut_at_the_edge() {
    let matrix = Matrix::from_row_slice(2, 2, &[1, 2, 3, 4]);
    assert_eq!(matrix.sub_matrix((1, 1), (5, 5)), Matrix::from_row_slice(1, 1, &[4]));
    assert_eq!(matrix.sub_matrix((2, 0), (1, 1)).data, vec![Vec::<u32>::new()]);
}

#[test]
fn rotate_90_turns_a_quarter() {
    let m = Matrix::from_row_slice(2, 2, &[0, 1, 2, 3]);
    assert_eq!(m.rotate_90(), Matrix::from_row_slice(2, 2, &[2, 0, 3, 1]));
    assert_eq!(m.rotate_90().rotate_90().rotate_90().rotate_90(), m);
}

#[test]
fn test_overlaps() {
    let chunks_n2 = vec![
        Matrix::from_row_slice(2, 2, &[0, 1, 2, 3]),
        Matrix::from_row_slice(2, 2, &[3, 2, 0, 1]),
        Matrix::from_row_slice(2, 2, &[2, 0, 3, 1]),
    ];
    let expected_n2 = vec![
        ((5, 0), vec![0, 1, 0]),
        ((0, 1), vec![1, 0, 0]),
        ((6, 1), vec![1, 0, 0]),
        ((1, 0), vec![0, 1, 0]),
        ((2, 1), vec![1, 0, 0]),
        ((7, 0), vec![0, 1, 0]),
        ((2, 2), vec![0, 1, 0]),
        ((5, 1), vec![0, 0, 1]),
    ];
    check_rules(&overlaps(&chunks_n2, 2), &expected_n2, 8);

    let chunks_n3 = vec![
        Matrix::from_row_slice(3, 3, &[0, 1, 2, 3, 4, 5, 6, 7, 8]),
        Matrix::from_row_slice(3, 3, &[9, 10, 11, 12, 13, 14, 15, 16, 0]),
    ];
    let expected_n3 = vec![((0, 0), vec![0, 1]), ((23, 1), vec![1, 0])];
    check_rules(&overlaps(&chunks_n3, 3), &expected_n3, 24);

    let chunks_n4 = vec![Matrix::from_row_slice(4, 4, &[0, 0, 2, 3, 0, 1, 4, 5, 6, 7, 0, 0, 8, 9, 0, 1])];
    let expected_n4 = vec![((8, 0), vec![1]), ((39, 0), vec![1])];
    check_rules(&overlaps(&chunks_n4, 4), &expected_n4, 48);
}

#[test]
fn pruned_rules_keep_possible_neighbours() {
    let chunks = vec![
        Matrix::from_row_slice(2, 2, &[0, 1, 0, 1]),
        Matrix::from_row_slice(2, 2, &[1, 0, 1, 0]),
    ];
    let raw = overlaps(&chunks, 2);
    let all = LabelDomain::from_counts(&[1, 1]);
    let pruned = prune_rules(&all, &raw, 2);
    // Two pixels east, west or south of a chunk, the stripes repeat it.
    assert_eq!(pruned.get(4, 0), Some(&LabelDomain::from_counts(&[1, 0])));
    assert_eq!(pruned.get(3, 0), Some(&LabelDomain::from_counts(&[1, 0])));
    assert_eq!(pruned.get(6, 0), Some(&LabelDomain::from_counts(&[1, 0])));
    assert_eq!(pruned.get(4, 1), Some(&LabelDomain::from_counts(&[0, 1])));
}

#[test]
fn crops_on_each_side() {
    let m = Matrix::from_row_slice(3, 3, &[0, 1, 2, 3, 4, 5, 6, 7, 8]);
    assert_eq!(m.copy().crop_left(1), Matrix::from_row_slice(3, 2, &[1, 2, 4, 5, 7, 8]));
    assert_eq!(m.copy().crop_right(1), Matrix::from_row_slice(3, 1, &[0, 3, 6]));
    assert_eq!(m.copy().crop_right(5), m);
    assert_eq!(m.copy().crop_top(2), Matrix::from_row_slice(1, 3, &[6, 7, 8]));
    assert_eq!(m.copy().crop_bottom(1), Matrix::from_row_slice(1, 3, &[0, 1, 2]));
    assert_eq!(m.window((1, 1), (2, 1)), m.sub_matrix((1, 1), (2, 1)));
}
