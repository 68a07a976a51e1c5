use wfc_rust::random::{draw_words, stream_from};
use wfc_rust::domain::LabelDomain;
use wfc_rust::entropy::{entropy, log2_fixed};

fn dom(counts: &[u32]) -> LabelDomain {
    LabelDomain::from_counts(counts)
}

#[test]
fn intersect_and_union_of_a_domain_with_itself() {
    let d = dom(&[3, 0, 7, 1]);
    assert_eq!(d.intersect(&d), d);
    assert_eq!(d.union(&d), d);
}

#[test]
fn intersect_is_min_and_union_is_max() {
    let a = dom(&[3, 0, 7, 1]);
    let b = dom(&[1, 5, 7, 0]);
    assert_eq!(a.intersect(&b), dom(&[1, 0, 7, 0]));
    assert_eq!(a.union(&b), dom(&[3, 5, 7, 1]));
    assert_eq!(a.intersect(&b), b.intersect(&a));
}

#[test]
fn subset_cardinality_and_single_label() {
    let a = dom(&[0, 2, 0]);
    let b = dom(&[1, 2, 3]);
    assert!(a.is_subset(&b));
    assert!(!b.is_subset(&a));
    assert_eq!(b.cardinality_non_zero(), 3);
    assert_eq!(a.cardinality_non_zero(), 1);
    assert_eq!(a.single_label(), Some(1));
    assert_eq!(b.single_label(), None);
    assert_eq!(LabelDomain::empty(3).single_label(), None);
    assert_eq!(LabelDomain::empty(3), dom(&[0, 0, 0]));
}

#[test]
fn determine_keeps_the_weight() {
    let mut d = dom(&[4, 5, 6]);
    d.determine(1);
    assert_eq!(d, dom(&[0, 5, 0]));
    assert_eq!(LabelDomain::full(&dom(&[1, 2, 1])), dom(&[1, 2, 1]));
}

#[test]
fn fixed_point_logarithm() {
    assert_eq!(log2_fixed(0), 0);
    assert_eq!(log2_fixed(1), 0);
    assert_eq!(log2_fixed(2), 65536);
    assert_eq!(log2_fixed(3), 98304);
    assert_eq!(log2_fixed(8), 196608);
    assert_eq!(log2_fixed(5), 147456);
}

#[test]
fn entropy_keys() {
    assert_eq!(entropy(&dom(&[1, 1])), 65536);
    assert_eq!(entropy(&dom(&[3, 3])), 65536);
    assert_eq!(entropy(&dom(&[1, 2, 1])), 98304);
    assert_eq!(entropy(&dom(&[0, 5, 0])), 0);
    assert_eq!(entropy(&dom(&[0, 0])), 0);
}

#[test]
fn seeded_stream_repeats() {
    let mut a = stream_from(5);
    let mut b = stream_from(5);
    let wa = draw_words(&mut a, 4);
    let wb = draw_words(&mut b, 4);
    assert_eq!(wa, wb);
    assert_eq!(wa.len(), 4);
    assert!(wa.iter().any(|w| *w != 0));
    assert_ne!(draw_words(&mut a, 4), wa);
}
