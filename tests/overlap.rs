use itertools::Itertools;
use wfc_rust::domain::LabelDomain;
use wfc_rust::rules::RuleTable;
use wfc_rust::overlap::{
    coords_to_index, create_raw_graph, index_to_coords, propagate_overlaps_2, is_inside, real_vertex_indexes, sub_chunk_positions, PureReverse,
};

#[test]
fn test_subchunk_positions() {
    let sub_chunks = vec![
        ((0, 0), (1, 1), 0),
        ((0, 0), (2, 1), 1),
        ((1, 0), (1, 1), 2),
        ((0, 0), (1, 2), 3),
        ((1, 0), (1, 2), 4),
        ((0, 1), (1, 1), 5),
        ((0, 1), (2, 1), 6),
        ((1, 1), (1, 1), 7),
    ];
    assert_eq!(sub_chunk_positions(2), sub_chunks);
}

#[test]
fn test_index_to_coords() {
    assert_eq!(index_to_coords(4, 3), (1, 1));
    assert_eq!(index_to_coords(4, 4), (0, 1));
    assert_eq!(index_to_coords(11, 3), (2, 3));
}

#[test]
fn test_coords_to_index() {
    assert_eq!(coords_to_index((2, 1), 3), 5);
    assert_eq!(coords_to_index((0, 1), 4), 4);
}

#[test]
fn test_is_inside() {
    assert!(!is_inside((-1, 0), (3, 3)));
    assert!(!is_inside((0, 4), (4, 4)));
}

#[test]
fn zip_test() {
    let v = vec![10, 20, 30, 40];
    let coords = (0..3).cartesian_product(0..3);
    v.iter().zip(coords).for_each(|(v_value, (x, y))| {
        println!("{} {} {}", *v_value, x, y);
    })
}

#[test]
fn is_inside_accepts_every_cell_of_the_grid() {
    for x in 0..3 {
        for y in 0..2 {
            assert!(is_inside((x, y), (3, 2)));
        }
    }
    assert!(!is_inside((3, 0), (3, 2)));
    assert!(!is_inside((0, 2), (3, 2)));
}

#[test]
fn sub_chunk_positions_of_three() {
    let s = sub_chunk_positions(3);
    assert_eq!(s.len(), 24);
    assert_eq!(s[0], ((0, 0), (1, 1), 0));
    assert_eq!(s[11], ((0, 0), (2, 3), 11));
    assert_eq!(s[12], ((1, 0), (2, 3), 12));
    assert_eq!(s[23], ((2, 2), (1, 1), 23));
}

#[test]
fn real_vertex_indexes_of_two() {
    assert_eq!(real_vertex_indexes(2), vec![0, 2, 4, 10, 14, 20, 22, 24]);
}

#[test]
fn pure_reverse_reverses() {
    assert_eq!(vec![1, 2, 3].pure_reverse(), vec![3, 2, 1]);
    assert_eq!(Vec::<u8>::new().pure_reverse(), Vec::<u8>::new());
}

#[test]
fn test_propagate_overlaps() {
    let all = LabelDomain::from_counts(&[1, 1]);
    let mut rules = RuleTable::new(2);
    for d in 0..8 {
        rules.insert(d, 0, LabelDomain::from_counts(&[0, 1]));
        rules.insert(d, 1, LabelDomain::from_counts(&[1, 1]));
    }
    let g = propagate_overlaps_2(&all, &rules, 2, 0);
    assert_eq!(g.vertices.len(), 25);
    assert_eq!(g.vertices[12], LabelDomain::from_counts(&[1, 0]));
    assert_eq!(g.vertices[6], LabelDomain::from_counts(&[0, 1]));
    assert_eq!(g.vertices[0], LabelDomain::from_counts(&[1, 1]));
}

#[test]
fn test_create_raw_graph() {
    let all = LabelDomain::from_counts(&[1]);
    let g = create_raw_graph(&all, 3, (2, 2));
    assert_eq!(g.vertices.len(), 16);
    assert_eq!(g.edges[0], vec![(1, 12), (2, 13), (4, 16), (5, 17), (6, 18), (8, 21), (9, 22), (10, 23)]);
    assert_eq!(g.edges[1], vec![(0, 11), (2, 12), (3, 13), (4, 15), (5, 16), (6, 17), (7, 18), (8, 20), (9, 21), (10, 22), (11, 23)]);
    assert_eq!(g.edges[2], vec![(0, 10), (1, 11), (3, 12), (4, 14), (5, 15), (6, 16), (7, 17), (8, 19), (9, 20), (10, 21), (11, 22)]);
    assert_eq!(g.edges[3], vec![(1, 10), (2, 11), (5, 14), (6, 15), (7, 16), (9, 19), (10, 20), (11, 21)]);
    assert_eq!(g.edges[4], vec![(0, 7), (1, 8), (2, 9), (5, 12), (6, 13), (8, 16), (9, 17), (10, 18), (12, 21), (13, 22), (14, 23)]);
}
