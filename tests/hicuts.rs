use hicuts::interval::Interval;
use hicuts::rule::Rule;
use hicuts::tree::{cut, linear_match, piece_index, piece_of, DecisionTree, Internal, Node, Partition};
use hicuts::{HiCutsError, MinMax};

fn iv(b: u64, e: u64) -> Interval {
    Interval::new(b, e).unwrap()
}

fn rule(name: &str, ivs: &[(u64, u64)]) -> Rule {
    Rule::new(name, ivs.iter().map(|&(b, e)| iv(b, e)).collect())
}

fn leaves<'a>(n: &'a Node, out: &mut Vec<&'a Vec<usize>>) {
    match n {
        Node::Leaf(v) => out.push(v),
        Node::Internal(i) => {
            for c in &i.children {
                leaves(c, out);
            }
        }
    }
}

fn check_tiling(n: &Node) {
    if let Node::Internal(i) = n {
        let r = i.intervals[i.d];
        let k = i.children.len() as u64;
        assert!(k >= 1);
        assert_eq!(piece_of(r, k, 0).begin, r.begin);
        assert_eq!(piece_of(r, k, k - 1).end, r.end);
        for j in 0..k {
            let p = piece_of(r, k, j);
            assert!(p.begin < p.end);
            if j + 1 < k {
                assert_eq!(p.end, piece_of(r, k, j + 1).begin);
            }
            if let Node::Internal(c) = &i.children[j as usize] {
                assert_eq!(c.intervals[i.d], p);
            }
        }
        for c in &i.children {
            check_tiling(c);
        }
    }
}

/// A small pseudo-random generator, so that the rule sets are reproducible.
fn next(seed: &mut u64) -> u64 {
    *seed = seed.wrapping_mul(6364136223846793005).wrapping_add(1442695040888963407);
    *seed >> 33
}

fn random_rules(n: usize, dims: usize, span: u64, wdiv: u64, seed: &mut u64) -> Vec<Rule> {
    (0..n)
        .map(|i| {
            let ivs: Vec<(u64, u64)> = (0..dims)
                .map(|_| {
                    let b = next(seed) % span;
                    let w = next(seed) % (span / wdiv) + 1;
                    (b, b + w)
                })
                .collect();
            rule(&format!("r{}", i), &ivs)
        })
        .collect()
}

#[test]
fn interval_new_accepts_and_refuses() {
    assert_eq!(Interval::new(3, 7), Ok(Interval { begin: 3, end: 7 }));
    assert_eq!(Interval::new(5, 5), Ok(Interval { begin: 5, end: 5 }));
    assert_eq!(Interval::new(8, 7), Err(HiCutsError::InvalidInterval));
}

#[test]
fn interval_overlaps_contains_width() {
    let a = iv(0, 100);
    let b = iv(50, 200);
    let c = iv(100, 150);
    assert!(a.overlaps(&b));
    assert!(b.overlaps(&a));
    assert!(!a.overlaps(&c));
    assert!(a.contains(0));
    assert!(a.contains(99));
    assert!(!a.contains(100));
    assert_eq!(a.width(), 100);
    assert_eq!(iv(7, 7).width(), 0);
}

#[test]
fn rule_matches_every_dimension() {
    let r = rule("x", &[(0, 10), (20, 30)]);
    assert_eq!(r.name, "x");
    assert!(r.matches(&vec![5, 25]));
    assert!(!r.matches(&vec![5, 30]));
    assert!(!r.matches(&vec![10, 25]));
    assert!(!r.matches(&vec![5]));
}

#[test]
fn min_max_bounds() {
    assert_eq!(<u8 as MinMax>::max(), 255);
    assert_eq!(<u16 as MinMax>::min(), 0);
    assert_eq!(<u32 as MinMax>::max(), u32::MAX);
    assert_eq!(<u64 as MinMax>::max(), u64::MAX);
}

#[test]
fn pieces_of_a_range() {
    let r = iv(10, 20);
    assert_eq!(piece_of(r, 3, 0), iv(10, 13));
    assert_eq!(piece_of(r, 3, 1), iv(13, 16));
    assert_eq!(piece_of(r, 3, 2), iv(16, 20));
    assert_eq!(piece_index(r, 3, 10), 0);
    assert_eq!(piece_index(r, 3, 15), 1);
    assert_eq!(piece_index(r, 3, 19), 2);
}

#[test]
fn partition_collects_overlapping_rules() {
    let rules = vec![rule("a", &[(0, 100)]), rule("b", &[(50, 200)]), rule("c", &[(120, 130)])];
    let p = Partition::collect(&rules, &vec![0, 1, 2], 0, iv(0, 60));
    assert_eq!(p.rules, vec![0, 1]);
    assert_eq!(p.interval, iv(0, 60));
    let q = Partition::collect(&rules, &vec![2, 1, 0], 0, iv(100, 200));
    assert_eq!(q.rules, vec![2, 1]);
    let e = Partition::new(iv(1, 2), vec![]);
    assert!(e.rules.is_empty());
}

#[test]
fn two_rules_one_dimension() {
    let rules = vec![rule("A", &[(0, 100)]), rule("B", &[(50, 200)])];
    let t = DecisionTree::new(1, 200, 1, rules).unwrap();
    // Two pieces cost 200 * 2 + 100 * (2 + 2) = 800, four pieces 1000.
    match t.root() {
        Node::Internal(i) => {
            assert_eq!(i.d, 0);
            assert_eq!(i.children.len(), 2);
            assert_eq!(i.children[1], Node::Leaf(vec![]));
        }
        Node::Leaf(_) => panic!("expected a cut"),
    }
    let mut ls = Vec::new();
    leaves(t.root(), &mut ls);
    assert!(ls.len() >= 2);
    let names = |f: u64| -> Vec<String> {
        t.query(&vec![f]).iter().map(|&i| t.rules()[i].name.clone()).collect()
    };
    assert_eq!(names(30), vec!["A".to_string()]);
    assert_eq!(names(150), vec!["B".to_string()]);
    assert_eq!(names(75), vec!["A".to_string(), "B".to_string()]);
    assert!(names(500).is_empty());
}

#[test]
fn full_span_rule_is_replicated_into_every_leaf() {
    let mut rules = vec![Rule::new("all", vec![iv(0, u64::MAX), iv(0, u64::MAX)])];
    for i in 0..10u64 {
        let b = i << 59;
        rules.push(rule(&format!("s{}", i), &[(b, b + 1000), (b, b + 1000)]));
    }
    let t = DecisionTree::new(4, 200, 2, rules).unwrap();
    let mut ls = Vec::new();
    leaves(t.root(), &mut ls);
    assert!(ls.len() >= 2);
    for l in &ls {
        assert!(l.contains(&0));
    }
    for i in 0..10u64 {
        let b = i << 59;
        assert_eq!(t.query(&vec![b + 5, b + 5]), vec![0, i as usize + 1]);
        assert_eq!(t.query(&vec![b + 5000, b + 5]), vec![0]);
    }
}

#[test]
fn query_agrees_with_linear_scan() {
    let mut seed = 7u64;
    for dims in 1..=3usize {
        let rules = random_rules(40, dims, 1 << 20, 4, &mut seed);
        let copy = random_rules(0, dims, 1 << 20, 4, &mut seed);
        assert!(copy.is_empty());
        let check: Vec<Rule> = rules
            .iter()
            .map(|r| Rule::new(&r.name, r.intervals.clone()))
            .collect();
        let t = DecisionTree::new(4, 200, dims, rules).unwrap();
        for _ in 0..300 {
            let f: Vec<u64> = (0..dims).map(|_| next(&mut seed) % (1 << 20)).collect();
            assert_eq!(t.query(&f), linear_match(&check, &f));
        }
    }
}

#[test]
fn rules_spanning_everything_still_terminate() {
    let rules: Vec<Rule> = (0..20).map(|i| Rule::new(&format!("r{}", i), vec![iv(0, u64::MAX), iv(0, u64::MAX)])).collect();
    let t = DecisionTree::new(1, 200, 2, rules).unwrap();
    match t.root() {
        Node::Leaf(v) => assert_eq!(v.len(), 20),
        Node::Internal(_) => panic!("a cut that separates nothing was taken"),
    }
    assert_eq!(t.query(&vec![3, 4]).len(), 20);
}

#[test]
fn leaves_respect_the_threshold() {
    let mut seed = 11u64;
    let rules = random_rules(60, 2, 1 << 24, 256, &mut seed);
    let t = DecisionTree::new(6, 200, 2, rules).unwrap();
    let mut ls = Vec::new();
    leaves(t.root(), &mut ls);
    for l in ls {
        assert!(l.len() <= 6);
    }
}

#[test]
fn children_tile_the_cut_dimension() {
    let mut seed = 3u64;
    let rules = random_rules(50, 2, 1 << 16, 4, &mut seed);
    let t = DecisionTree::new(2, 300, 2, rules).unwrap();
    assert!(matches!(t.root(), Node::Internal(_)));
    check_tiling(t.root());
}

#[test]
fn building_twice_gives_the_same_tree() {
    let mut s1 = 5u64;
    let mut s2 = 5u64;
    let a = DecisionTree::new(3, 150, 2, random_rules(30, 2, 1 << 12, 4, &mut s1)).unwrap();
    let b = DecisionTree::new(3, 150, 2, random_rules(30, 2, 1 << 12, 4, &mut s2)).unwrap();
    assert_eq!(a.root(), b.root());
}

#[test]
fn empty_rule_set_gives_empty_leaf() {
    let t = DecisionTree::new(4, 200, 2, vec![]).unwrap();
    assert_eq!(t.root(), &Node::Leaf(vec![]));
    assert!(t.query(&vec![1, 2]).is_empty());
}

#[test]
fn dimension_mismatch_is_refused() {
    let rules = vec![rule("a", &[(0, 10)]), rule("b", &[(0, 10), (0, 10)])];
    assert!(matches!(DecisionTree::new(1, 200, 1, rules), Err(HiCutsError::DimensionMismatch)));
}

#[test]
fn queries_of_the_wrong_shape_or_out_of_domain_match_nothing() {
    let t = DecisionTree::new(1, 200, 1, vec![rule("a", &[(0, u64::MAX)])]).unwrap();
    assert_eq!(t.query(&vec![5]), vec![0]);
    assert!(t.query(&vec![5, 5]).is_empty());
    assert!(t.query(&vec![u64::MAX]).is_empty());
}

#[test]
fn getters_report_parameters() {
    let t = DecisionTree::new(8, 250, 3, vec![]).unwrap();
    assert_eq!(t.binth(), 8);
    assert_eq!(t.spfac(), 250);
    assert_eq!(t.dims(), 3);
    assert!(t.rules().is_empty());
}

#[test]
fn cut_over_a_narrow_domain() {
    let rules = vec![rule("a", &[(0, 2)]), rule("b", &[(2, 4)]), rule("c", &[(0, 4)])];
    let n = cut(1, 200, &vec![iv(0, 4)], &rules, vec![0, 1, 2]);
    match &n {
        Node::Internal(i) => {
            assert_eq!(i.d, 0);
            assert!(i.children.len() <= 4);
        }
        Node::Leaf(_) => panic!("expected a cut"),
    }
    let mut ls = Vec::new();
    leaves(&n, &mut ls);
    for l in ls {
        assert!(l.contains(&2));
    }
}

#[test]
fn internal_new_starts_without_children() {
    let i = Internal::new(1, vec![iv(0, 10), iv(5, 9)]);
    assert_eq!(i.d, 1);
    assert_eq!(i.intervals, vec![iv(0, 10), iv(5, 9)]);
    assert!(i.children.is_empty());
}
