use wfc_rust::collapse::{attempt, collapse, Collapse};
use wfc_rust::domain::LabelDomain;
use wfc_rust::graph::Graph;
use wfc_rust::rules::{constraint, RuleTable};
use wfc_rust::state::{Candidate, Status};

fn dom(counts: &[u32]) -> LabelDomain {
    LabelDomain::from_counts(counts)
}

fn set(n: usize, labels: &[usize]) -> LabelDomain {
    let mut counts = vec![0u32; n];
    for l in labels {
        counts[*l] = 1;
    }
    LabelDomain::from_counts(&counts)
}

fn labels_of(g: &Graph) -> Vec<usize> {
    g.vertices.iter().map(|d| d.single_label().unwrap()).collect()
}

fn simple_edges() -> Vec<Vec<(usize, usize)>> {
    vec![
        vec![(1, 0), (3, 2)],
        vec![(0, 1), (2, 2)],
        vec![(3, 1), (1, 3)],
        vec![(0, 3), (2, 0)],
    ]
}

fn simple_vertices() -> Vec<LabelDomain> {
    vec![set(3, &[0, 1, 2]), set(3, &[0, 1, 2]), set(3, &[0, 1, 2]), set(3, &[0, 1, 2])]
}

fn simple_rules() -> RuleTable {
    let mut rules = RuleTable::new(3);
    rules.insert(0, 0, set(3, &[1]));
    rules.insert(0, 1, set(3, &[2]));
    rules.insert(1, 1, set(3, &[0]));
    rules.insert(1, 2, set(3, &[1]));
    rules.insert(2, 0, set(3, &[1]));
    rules.insert(2, 1, set(3, &[2]));
    rules.insert(3, 1, set(3, &[0]));
    rules.insert(3, 2, set(3, &[1]));
    rules
}

fn grid_2x3_edges() -> Vec<Vec<(usize, usize)>> {
    vec![
        vec![(3, 1), (1, 2)],
        vec![(0, 3), (4, 1), (2, 2)],
        vec![(1, 3), (5, 1)],
        vec![(0, 0), (4, 2)],
        vec![(3, 3), (1, 0), (5, 2)],
        vec![(4, 3), (2, 0)],
    ]
}

fn exemplar() -> Graph {
    let edges = vec![
        vec![(1, 2), (4, 1)],
        vec![(0, 3), (5, 1), (2, 2)],
        vec![(1, 3)],
        vec![(4, 2)],
        vec![(3, 3), (0, 0), (5, 2)],
        vec![(4, 3), (1, 0)],
    ];
    let vertices = vec![
        set(2, &[0]),
        set(2, &[1]),
        set(2, &[1]),
        set(2, &[0]),
        set(2, &[0]),
        set(2, &[1]),
    ];
    Graph::new(vertices, edges)
}

fn grid_3x4(all: &LabelDomain) -> Graph {
    let edges = vec![
        vec![(1, 2), (4, 1)],
        vec![(0, 3), (5, 1), (2, 2)],
        vec![(1, 3), (6, 1), (3, 2)],
        vec![(2, 3), (7, 1)],
        vec![(0, 0), (8, 1), (5, 2)],
        vec![(4, 3), (1, 0), (6, 2), (9, 1)],
        vec![(5, 3), (2, 0), (7, 2), (10, 1)],
        vec![(6, 3), (3, 0), (11, 1)],
        vec![(4, 0), (9, 2)],
        vec![(8, 3), (5, 0), (10, 2)],
        vec![(9, 3), (6, 0), (11, 2)],
        vec![(10, 3), (7, 0)],
    ];
    let vertices = (0..12).map(|_| all.copy()).collect();
    Graph::new(vertices, edges)
}

/// Every resolved neighbour pair is allowed by the rules.
fn consistent(g: &Graph, rules: &RuleTable) -> bool {
    let labels = labels_of(g);
    for (u, list) in g.edges.iter().enumerate() {
        for (v, d) in list {
            match rules.get(*d, labels[u]) {
                Some(allowed) => {
                    if allowed.counts[labels[*v]] == 0 {
                        return false;
                    }
                }
                None => return false,
            }
        }
    }
    true
}

#[test]
fn test_constraint() {
    let mut rules = RuleTable::new(3);
    rules.insert(0, 0, dom(&[1, 0, 0]));
    rules.insert(0, 1, dom(&[0, 0, 1]));
    rules.insert(0, 2, dom(&[1, 1, 1]));
    let labels = dom(&[2, 4, 0]);
    let result = constraint(&labels, 0, &rules);
    assert_eq!(result, dom(&[1, 0, 1]));
}

#[test]
fn constraint_of_unknown_direction_is_empty() {
    let rules = simple_rules();
    assert_eq!(constraint(&set(3, &[0, 1, 2]), 7, &rules), dom(&[0, 0, 0]));
}

#[test]
fn test_new() {
    let out_graph = Graph::new(simple_vertices(), simple_edges());
    let all_labels = set(3, &[0, 1, 2]);
    let collapse = Collapse::new(&all_labels, out_graph, vec![0; 8]);
    assert_eq!(collapse.heap.len(), 4);
}

#[test]
fn test_new_partial() {
    let vertices = vec![set(3, &[0]), set(3, &[0, 2]), set(3, &[0, 1, 2]), set(3, &[0, 1, 2])];
    let out_graph = Graph::new(vertices, simple_edges());
    let all_labels = set(3, &[0, 1, 2]);
    let collapse = Collapse::new(&all_labels, out_graph, vec![0; 8]);
    assert_eq!(collapse.heap.len(), 3);
    assert_eq!(collapse.propagations.len(), 3);
    assert_eq!(collapse.observed_flags(), vec![true, false, false, false]);
}

#[test]
fn rotation_cycle_resolves_with_first_choices() {
    let out_graph = Graph::new(simple_vertices(), simple_edges());
    let all_labels = set(3, &[0, 1, 2]);
    let result = attempt(&simple_rules(), &all_labels, &out_graph, vec![0; 8]).unwrap();
    assert_eq!(labels_of(&result), vec![0, 1, 2, 1]);
}

#[test]
fn rotation_cycle_contradiction() {
    let out_graph = Graph::new(simple_vertices(), simple_edges());
    let all_labels = set(3, &[0, 1, 2]);
    let result = attempt(&simple_rules(), &all_labels, &out_graph, vec![0, 0, 0, 0, 2, 0, 0, 0]);
    assert!(result.is_none());
}

#[test]
fn grid_two_labels_follows_draws() {
    let all_rule = set(2, &[0, 1]);
    let mut rules = RuleTable::new(2);
    for d in 0..4 {
        for l in 0..2 {
            rules.insert(d, l, all_rule.copy());
        }
    }
    let vertices = (0..6).map(|_| set(2, &[0, 1])).collect();
    let out_graph = Graph::new(vertices, grid_2x3_edges());
    let draws = vec![0, 0, 0, 0, 0, 0, 1, 1, 0, 1, 1, 1];
    let result = attempt(&rules, &set(2, &[0, 1]), &out_graph, draws).unwrap();
    assert_eq!(labels_of(&result), vec![1, 1, 0, 1, 1, 1]);
}

#[test]
fn exemplar_frequencies_and_rules() {
    let input = exemplar();
    assert_eq!(input.frequencies(), dom(&[3, 3]));
    let rules = input.rules();
    assert_eq!(rules.get(0, 0), Some(&dom(&[1, 0])));
    assert_eq!(rules.get(0, 1), Some(&dom(&[0, 1])));
    assert_eq!(rules.get(1, 0), Some(&dom(&[1, 0])));
    assert_eq!(rules.get(1, 1), Some(&dom(&[0, 1])));
    assert_eq!(rules.get(2, 0), Some(&dom(&[1, 1])));
    assert_eq!(rules.get(2, 1), Some(&dom(&[0, 1])));
    assert_eq!(rules.get(3, 0), Some(&dom(&[1, 0])));
    assert_eq!(rules.get(3, 1), Some(&dom(&[1, 1])));
    assert_eq!(rules.get(4, 0), None);
}

#[test]
fn grown_grid_with_first_choices() {
    let input = exemplar();
    let rules = input.rules();
    let all = input.frequencies();
    let out_graph = grid_3x4(&all);
    let result = attempt(&rules, &all, &out_graph, vec![0; 24]).unwrap();
    assert_eq!(labels_of(&result), vec![0; 12]);
}

#[test]
fn grown_grid_from_seed_is_consistent() {
    let input = exemplar();
    let rules = input.rules();
    let all = input.frequencies();
    let result = collapse(&input, grid_3x4(&all), Some(14392), None).unwrap();
    assert!(consistent(&result, &rules));
    let labels = labels_of(&result);
    for row in 0..3 {
        assert_eq!(labels[row * 4..row * 4 + 4], labels[0..4]);
    }
    for x in 0..3 {
        assert!(labels[x] <= labels[x + 1]);
    }
}

#[test]
fn collapse_is_deterministic_for_a_seed() {
    let input = exemplar();
    let all = input.frequencies();
    let a = collapse(&input, grid_3x4(&all), Some(7), Some(10));
    let b = collapse(&input, grid_3x4(&all), Some(7), Some(10));
    assert_eq!(a, b);
}

#[test]
fn collapse_with_no_tries_fails() {
    let input = exemplar();
    let all = input.frequencies();
    assert!(collapse(&input, grid_3x4(&all), Some(1), Some(0)).is_none());
}

#[test]
fn stale_candidate_is_discarded() {
    let vertices = vec![set(2, &[0, 1]), set(2, &[0, 1])];
    let out_graph = Graph::new(vertices, vec![vec![], vec![]]);
    let rules = RuleTable::new(2);
    let all = set(2, &[0, 1]);
    let mut run = Collapse::new(&all, out_graph, vec![0; 4]);
    run.heap.push(Candidate { index: 0, key: 0, tie: 0 });
    assert_eq!(run.heap.len(), 3);
    run.step(&rules);
    assert_eq!(run.observed_flags(), vec![true, false]);
    assert_eq!(run.out_graph.vertices[0], dom(&[1, 0]));
    run.step(&rules);
    assert_eq!(run.heap.len(), 1);
    assert_eq!(run.status, Status::Running);
    assert_eq!(run.observed_flags(), vec![true, false]);
    assert_eq!(run.out_graph.vertices[1], dom(&[1, 1]));
    let result = run.exec(&rules).unwrap();
    assert_eq!(labels_of(&result), vec![0, 0]);
}

#[test]
fn empty_domain_fails_the_attempt() {
    let vertices = vec![set(2, &[]), set(2, &[0, 1])];
    let out_graph = Graph::new(vertices, vec![vec![], vec![]]);
    let rules = RuleTable::new(2);
    let result = attempt(&rules, &set(2, &[0, 1]), &out_graph, vec![0; 4]);
    assert!(result.is_none());
}

#[test]
fn collapse_with_fresh_seed_keeps_rules_and_domains() {
    let input = exemplar();
    let rules = input.rules();
    let all = input.frequencies();
    if let Some(result) = collapse(&input, grid_3x4(&all), None, None) {
        assert!(consistent(&result, &rules));
        for d in &result.vertices {
            assert!(d.is_subset(&all));
            assert_eq!(d.cardinality_non_zero(), 1);
        }
    }
}

#[test]
fn attempt_never_adds_labels() {
    let out_graph = Graph::new(simple_vertices(), simple_edges());
    let all_labels = set(3, &[0, 1, 2]);
    for first in 0..3u64 {
        let draws = vec![0, 0, 0, 0, first, 0, 0, 0];
        if let Some(result) = attempt(&simple_rules(), &all_labels, &out_graph, draws) {
            assert!(consistent(&result, &simple_rules()));
            for (v, d) in result.vertices.iter().enumerate() {
                assert!(d.is_subset(&out_graph.vertices[v]));
            }
        }
    }
}

#[test]
fn grown_grid_resolves_to_stripes() {
    let input = exemplar();
    let rules = input.rules();
    let all = input.frequencies();
    let out_graph = grid_3x4(&all);
    let mut draws = vec![0u64; 24];
    draws[14] = 1;
    let result = attempt(&rules, &all, &out_graph, draws).unwrap();
    assert_eq!(labels_of(&result), vec![0, 0, 1, 1, 0, 0, 1, 1, 0, 0, 1, 1]);
}

#[test]
fn collapse_of_a_resolved_graph_keeps_it() {
    let input = exemplar();
    let all = input.frequencies();
    let vertices = (0..12).map(|i| if i % 4 < 2 { dom(&[3, 0]) } else { dom(&[0, 3]) }).collect();
    let out = Graph::new(vertices, grid_3x4(&all).edges);
    let result = collapse(&input, out.copy(), Some(5), None).unwrap();
    assert_eq!(result, out);
}

#[test]
fn default_tries_is_ten() {
    let input = exemplar();
    let all = input.frequencies();
    let a = collapse(&input, grid_3x4(&all), Some(99), None);
    let b = collapse(&input, grid_3x4(&all), Some(99), Some(10));
    assert_eq!(a, b);
}
