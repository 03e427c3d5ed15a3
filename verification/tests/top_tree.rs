use top_tree::cut::cut;
use top_tree::expose::expose;
use top_tree::link::link;
use top_tree::node::{Cluster, TopTree, Vertex};
use top_tree::path_query::path_query;
use top_tree::query::center::Center;
use top_tree::query::diameter::Diameter;
use top_tree::query::farthest_vertex::{farthest_answers, Farthest, NoValue};
use top_tree::query::median::{yuki772_answers, Median};
use top_tree::select::select;

const EDGES: [(usize, usize, usize); 12] = [
    (0, 1, 1),
    (1, 2, 10),
    (1, 3, 3),
    (1, 4, 4),
    (0, 5, 3),
    (5, 9, 4),
    (9, 10, 7),
    (10, 11, 9),
    (10, 12, 1),
    (0, 6, 3),
    (6, 7, 3),
    (7, 8, 7),
];

/// Distances from `s` in the forest given by `edges` over `n` vertices;
/// `None` for vertices in another tree.
fn distances(n: usize, edges: &[(usize, usize, usize)], s: usize) -> Vec<Option<usize>> {
    let mut d = vec![None; n];
    d[s] = Some(0);
    let mut stack = vec![s];
    while let Some(x) = stack.pop() {
        for &(a, b, w) in edges {
            let y = if a == x { b } else if b == x { a } else { continue };
            if d[y].is_none() {
                d[y] = Some(d[x].unwrap() + w);
                stack.push(y);
            }
        }
    }
    d
}

fn farthest(n: usize, edges: &[(usize, usize, usize)], s: usize) -> usize {
    distances(n, edges, s).into_iter().flatten().max().unwrap()
}

fn diameter(n: usize, edges: &[(usize, usize, usize)], s: usize) -> usize {
    let d = distances(n, edges, s);
    (0..n).filter(|&i| d[i].is_some()).map(|i| farthest(n, edges, i)).max().unwrap()
}

fn build<T: Cluster>(tree: &mut TopTree<T>, vals: Vec<T::V>, f: impl Fn(usize) -> T) -> Vec<Vertex> {
    let v: Vec<Vertex> = vals.into_iter().map(|x| Vertex::new(tree, x)).collect();
    for &(a, b, w) in EDGES.iter() {
        link(tree, v[a], v[b], f(w));
    }
    v
}

#[test]
fn path_length_test() {
    let mut tree: TopTree<usize> = TopTree::new();
    let mut v = build(&mut tree, (0..13).collect(), |w| w);
    for i in 0..13 {
        let dummy = Vertex::new(&mut tree, i + 13);
        v.push(dummy);
        link(&mut tree, v[i], dummy, 0);
    }
    assert!(path_query(&mut tree, v[1], v[0]) == 1);
    assert!(path_query(&mut tree, v[0], v[4]) == 5);
    assert!(path_query(&mut tree, v[1], v[9]) == 8);
    assert!(path_query(&mut tree, v[3], v[11]) == 27);
    assert!(path_query(&mut tree, v[6], v[12]) == 18);
    assert!(path_query(&mut tree, v[12], v[6]) == 18);
    assert!(path_query(&mut tree, v[2], v[4]) == 14);
    assert!(path_query(&mut tree, v[5], v[6]) == 6);
}

#[test]
fn path_length_all_pairs() {
    let mut tree: TopTree<usize> = TopTree::new();
    let v = build(&mut tree, (0..13).collect(), |w| w);
    for i in 0..13 {
        let d = distances(13, &EDGES, i);
        for j in 0..13 {
            if i != j {
                assert_eq!(path_query(&mut tree, v[i], v[j]), d[j].unwrap(), "{} {}", i, j);
            }
        }
    }
}

#[test]
fn diameter_whole_tree() {
    let mut tree: TopTree<Diameter> = TopTree::new();
    let v = build(&mut tree, (0..13).collect(), Diameter::new);
    for i in 0..13 {
        let root = expose(&mut tree, v[i]);
        assert_eq!(root.fold(&tree).diam, 36);
    }
}

#[test]
fn diameter_cut_test() {
    let mut tree: TopTree<Diameter> = TopTree::new();
    let v = build(&mut tree, (0..13).collect(), Diameter::new);
    cut(&mut tree, v[0], v[5]);
    let root = expose(&mut tree, v[0]);
    assert_eq!(root.fold(&tree).diam, 24);
    let root = expose(&mut tree, v[5]);
    assert_eq!(root.fold(&tree).diam, 20);
}

#[test]
fn farthest_from_every_vertex() {
    let mut tree: TopTree<Farthest> = TopTree::new();
    let v = build(&mut tree, vec![NoValue; 13], Farthest::new);
    for i in 0..13 {
        let root = expose(&mut tree, v[i]);
        assert_eq!(root.fold(&tree).ans, farthest(13, &EDGES, i), "vertex {}", i);
    }
}


#[test]
fn median_test() {
    let mut tree: TopTree<Median> = TopTree::new();
    let v = build(&mut tree, vec![1; 13], Median::new);
    for i in 0..13 {
        let mut sum = 0;
        for j in 0..13 {
            if i == j {
                continue;
            }
            sum += path_query(&mut tree, v[i], v[j]).length;
        }
        let d: usize = distances(13, &EDGES, i).into_iter().flatten().sum();
        assert_eq!(sum, d);
        let root = expose(&mut tree, v[i]);
        assert_eq!(root.fold(&tree).ans, d, "vertex {}", i);
    }
    let median = select(&mut tree, v[0], |a: Median, b: Median, av, bv, cv| {
        if a.inter_weight + av + cv >= b.inter_weight + bv + cv { 0 } else { 1 }
    });
    let best = (0..13).map(|i| distances(13, &EDGES, i).into_iter().flatten().sum::<usize>()).min().unwrap();
    let ans0 = expose(&mut tree, median.0).fold(&tree).ans;
    let ans1 = expose(&mut tree, median.1).fold(&tree).ans;
    assert_eq!(std::cmp::min(ans0, ans1), best);
}

#[test]
fn center_test() {
    let mut tree: TopTree<Center> = TopTree::new();
    let v = build(&mut tree, (0..13).collect(), Center::new);
    let center = select(&mut tree, v[0], |a: Center, b: Center, _, _, _| {
        if a.max_dist_right >= b.max_dist_left { 0 } else { 1 }
    });
    let (x, y) = (center.0.value(&tree), center.1.value(&tree));
    assert!(EDGES.iter().any(|&(a, b, _)| (a, b) == (x, y) || (b, a) == (x, y)));
}

#[test]
fn value_set_changes_the_value() {
    let mut tree: TopTree<Median> = TopTree::new();
    let mut v = build(&mut tree, vec![1; 13], Median::new);
    v[3].value_set(&mut tree, 5);
    assert_eq!(v[3].value(&tree), 5);
    assert_eq!(v[4].value(&tree), 1);
    let d: usize = (0..13)
        .map(|j| distances(13, &EDGES, 0)[j].unwrap() * if j == 3 { 5 } else { 1 })
        .sum();
    assert_eq!(expose(&mut tree, v[0]).fold(&tree).ans, d);
}

/// A small deterministic generator for the random scenarios.
struct Lcg(u64);

impl Lcg {
    fn next(&mut self, n: usize) -> usize {
        self.0 = self.0.wrapping_mul(6364136223846793005).wrapping_add(1442695040888963407);
        ((self.0 >> 33) % (n as u64)) as usize
    }
}

#[test]
fn random_links_and_cuts_keep_distances() {
    let n = 30;
    let mut rng = Lcg(7);
    let mut tree: TopTree<Diameter> = TopTree::new();
    let v: Vec<Vertex> = (0..n).map(|i| Vertex::new(&mut tree, i)).collect();
    let mut edges: Vec<(usize, usize, usize)> = Vec::new();
    for step in 0..400 {
        let a = rng.next(n);
        let b = rng.next(n);
        let w = rng.next(20) + 1;
        let da = distances(n, &edges, a);
        if a != b && da[b].is_none() {
            link(&mut tree, v[a], v[b], Diameter::new(w));
            edges.push((a, b, w));
        } else if !edges.is_empty() && step % 3 == 0 {
            let k = rng.next(edges.len());
            let (x, y, _) = edges.remove(k);
            cut(&mut tree, v[x], v[y]);
        }
        let s = rng.next(n);
        let root = expose(&mut tree, v[s]);
        assert_eq!(root.fold(&tree).diam, diameter(n, &edges, s), "step {}", step);
        let t = rng.next(n);
        if s != t {
            if let Some(d) = distances(n, &edges, s)[t] {
                assert_eq!(path_query(&mut tree, v[s], v[t]).length, d, "step {}", step);
            }
        }
    }
}

#[test]
fn new_vertex_keeps_its_value() {
    let mut tree: TopTree<usize> = TopTree::new();
    let a = Vertex::new(&mut tree, 42);
    let b = Vertex::new(&mut tree, 7);
    assert_eq!(a.value(&tree), 42);
    assert_eq!(b.value(&tree), 7);
    assert_eq!(tree.vertex_count(), 4);
    assert_eq!(a.index(), 0);
    assert_eq!(b.index(), 2);
}

#[test]
fn expose_fresh_vertex_gives_its_own_edge() {
    let mut tree: TopTree<usize> = TopTree::new();
    let v = Vertex::new(&mut tree, 5);
    let root = expose(&mut tree, v);
    assert_eq!(root.fold(&tree), 0);
    assert!(root.endpoints(&tree, 0) == v || root.endpoints(&tree, 1) == v);
}

#[test]
fn cut_then_link_again_changes_the_distance() {
    let mut tree: TopTree<usize> = TopTree::new();
    let v = build(&mut tree, vec![0; 13], |w| w);
    assert_eq!(path_query(&mut tree, v[2], v[11]), 10 + 1 + 3 + 4 + 7 + 9);
    cut(&mut tree, v[0], v[5]);
    link(&mut tree, v[5], v[1], 2);
    assert_eq!(path_query(&mut tree, v[2], v[11]), 10 + 2 + 4 + 7 + 9);
    assert_eq!(path_query(&mut tree, v[8], v[11]), 7 + 3 + 3 + 1 + 2 + 4 + 7 + 9);
}

#[test]
fn select_reaches_an_edge_of_the_diameter_tree() {
    let mut tree: TopTree<Diameter> = TopTree::new();
    // values are shifted by one, so that the dummy partners, valued 0, stand out
    let v = build(&mut tree, (1..14).collect(), Diameter::new);
    let (a, b) = select(&mut tree, v[7], |x: Diameter, y: Diameter, _, _, _| {
        if x.diam >= y.diam { 0 } else { 1 }
    });
    let (x, y) = (a.value(&tree), b.value(&tree));
    assert!(
        x == 0 || y == 0
            || EDGES.iter().any(|&(p, q, _)| (p + 1, q + 1) == (x, y) || (q + 1, p + 1) == (x, y))
    );
}

#[test]
fn farthest_answers_follow_the_queries() {
    let mut tree: TopTree<Farthest> = TopTree::new();
    let qs = vec![(1, 0, 5), (1, 1, 3), (3, 0, 0), (2, 1, 10), (3, 2, 0), (3, 1, 0)];
    assert_eq!(farthest_answers(&mut tree, &qs), vec![8, 13, 10]);
}

#[test]
fn yuki772_answers_follow_the_queries() {
    let mut tree: TopTree<Median> = TopTree::new();
    let qs = vec![(1, 1, 2, 4), (1, 2, 3, 6), (3, 1, 0, 0)];
    assert_eq!(yuki772_answers(&mut tree, 3, &qs), vec![6]);
}

#[test]
fn linking_at_a_shared_vertex_keeps_its_branches() {
    let mut tree: TopTree<usize> = TopTree::new();
    let c = Vertex::new(&mut tree, 0);
    let a = Vertex::new(&mut tree, 1);
    let b = Vertex::new(&mut tree, 2);
    let d = Vertex::new(&mut tree, 3);
    link(&mut tree, a, c, 1);
    link(&mut tree, b, c, 10);
    link(&mut tree, d, c, 100);
    assert_eq!(path_query(&mut tree, a, b), 11);
    assert_eq!(path_query(&mut tree, a, d), 101);
    assert_eq!(path_query(&mut tree, b, d), 110);
    assert_eq!(path_query(&mut tree, a, c), 1);
    assert_eq!(path_query(&mut tree, c, d), 100);
}

#[test]
fn yuki772_cut_splits_the_tree() {
    let mut tree: TopTree<Median> = TopTree::new();
    let qs = vec![(1, 1, 2, 4), (1, 2, 3, 6), (1, 3, 4, 5), (2, 1, 2, 0), (3, 4, 0, 0)];
    assert_eq!(yuki772_answers(&mut tree, 4, &qs), vec![6]);
}

#[test]
fn find_edge_sees_both_directions() {
    let mut tree: TopTree<usize> = TopTree::new();
    let a = Vertex::new(&mut tree, 0);
    let b = Vertex::new(&mut tree, 0);
    let c = Vertex::new(&mut tree, 0);
    let e = link(&mut tree, a, b, 7);
    assert_eq!(tree.find_edge(a, b), Some(e));
    assert_eq!(tree.find_edge(b, a), Some(e));
    assert_eq!(tree.find_edge(a, c), None);
    assert_eq!(path_query(&mut tree, b, a), 7);
}
