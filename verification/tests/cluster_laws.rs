use top_tree::node::Cluster;
use top_tree::query::center::Center;
use top_tree::query::diameter::Diameter;
use top_tree::query::farthest_vertex::{Farthest, NoValue};
use top_tree::query::median::Median;

fn rev<T: Cluster>(mut a: T) -> T {
    a.reverse();
    a
}

fn dia(diam: usize, l: usize, r: usize, len: usize) -> Diameter {
    Diameter { diam, max_dist_left: l, max_dist_right: r, length: len }
}

fn far(ans: usize, l: usize, r: usize, len: usize) -> Farthest {
    Farthest { ans, max_dist_left: l, max_dist_right: r, length: len }
}

fn cen(radius: usize, l: usize, r: usize, len: usize) -> Center {
    Center { radius, max_dist_left: l, max_dist_right: r, length: len }
}

fn med(w: usize, ls: usize, rs: usize, ans: usize, len: usize) -> Median {
    Median { inter_weight: w, left_sum: ls, right_sum: rs, ans, length: len }
}

#[test]
fn path_length_compress_adds() {
    assert_eq!(usize::compress(3, 4, 0, 0, 0), 7);
    assert_eq!(usize::rake(3, 4, 0, 0, 0), 3);
    assert_eq!(usize::identity(), 0);
    assert_eq!(usize::compress(usize::identity(), 9, 1, 2, 3), 9);
}

#[test]
fn path_length_compress_saturates() {
    assert_eq!(usize::compress(usize::MAX, 1, 0, 0, 0), usize::MAX);
    assert_eq!(usize::compress(usize::MAX - 1, 1, 0, 0, 0), usize::MAX);
    assert_eq!(usize::compress(usize::MAX, usize::MAX, 0, 0, 0), usize::MAX);
}

#[test]
fn path_length_reverse_keeps_length() {
    assert_eq!(rev(5usize), 5);
    assert_eq!(rev(usize::compress(2, 3, 0, 0, 0)), usize::compress(rev(3usize), rev(2usize), 0, 0, 0));
}

#[test]
fn diameter_compress_value() {
    let a = dia(3, 2, 3, 2);
    let b = dia(5, 4, 1, 4);
    assert_eq!(Diameter::compress(a, b, 0, 0, 0), dia(7, 6, 7, 6));
    assert_eq!(Diameter::rake(a, b, 0, 0, 0), dia(5, 3, 3, 2));
    assert_eq!(Diameter::new(4), dia(4, 4, 4, 4));
}

#[test]
fn diameter_compress_saturates() {
    let a = dia(1, 1, usize::MAX, usize::MAX);
    let b = dia(1, 1, 1, 1);
    let c = Diameter::compress(a, b, 0, 0, 0);
    assert_eq!(c.diam, usize::MAX);
    assert_eq!(c.length, usize::MAX);
    assert_eq!(c.max_dist_right, usize::MAX);
}

#[test]
fn diameter_reverse_laws() {
    let a = dia(3, 2, 3, 2);
    let b = dia(5, 4, 1, 4);
    assert_eq!(rev(rev(a)), a);
    assert_eq!(rev(Diameter::compress(a, b, 0, 0, 0)), Diameter::compress(rev(b), rev(a), 0, 0, 0));
}

#[test]
fn diameter_compress_associative() {
    let a = dia(3, 2, 3, 2);
    let b = dia(5, 4, 1, 4);
    let c = dia(2, 7, 2, 1);
    assert_eq!(
        Diameter::compress(Diameter::compress(a, b, 0, 0, 0), c, 0, 0, 0),
        Diameter::compress(a, Diameter::compress(b, c, 0, 0, 0), 0, 0, 0)
    );
}

#[test]
fn farthest_compress_value() {
    let a = far(0, 2, 3, 2);
    let b = far(0, 4, 1, 4);
    let n = NoValue;
    assert_eq!(Farthest::compress(a, b, n, n, n), far(4, 6, 7, 6));
    assert_eq!(Farthest::rake(a, b, n, n, n), far(0, 3, 3, 2));
}

#[test]
fn farthest_laws() {
    let a = far(1, 2, 3, 2);
    let b = far(0, 4, 1, 4);
    let c = far(9, 7, 2, 1);
    let n = NoValue;
    assert_eq!(rev(rev(a)), a);
    assert_eq!(rev(Farthest::compress(a, b, n, n, n)), Farthest::compress(rev(b), rev(a), n, n, n));
    assert_eq!(
        Farthest::compress(Farthest::compress(a, b, n, n, n), c, n, n, n).max_dist_left,
        Farthest::compress(a, Farthest::compress(b, c, n, n, n), n, n, n).max_dist_left
    );
}

#[test]
fn center_compress_value() {
    let a = cen(0, 2, 3, 2);
    let b = cen(0, 4, 1, 4);
    assert_eq!(Center::compress(a, b, 0, 0, 0), cen(4, 6, 7, 6));
    assert_eq!(Center::rake(a, b, 0, 0, 0), cen(0, 3, 3, 2));
    assert_eq!(rev(rev(a)), a);
    assert_eq!(rev(Center::compress(a, b, 0, 0, 0)), Center::compress(rev(b), rev(a), 0, 0, 0));
}

#[test]
fn median_compress_value() {
    // two edges of lengths 2 and 3 around a middle vertex of weight 5,
    // with end weights 1 and 4
    let a = Median::new(2);
    let b = Median::new(3);
    let c = Median::compress(a, b, 1, 4, 5);
    assert_eq!(c, med(5, 10, 15, 2 + 12, 5));
    let r = Median::rake(a, b, 1, 4, 5);
    assert_eq!(r, med(4, 20, 12, 0, 2));
}

#[test]
fn median_reverse_laws() {
    let a = med(1, 2, 3, 4, 5);
    let b = med(6, 7, 8, 9, 10);
    assert_eq!(rev(rev(a)), a);
    assert_eq!(rev(Median::compress(a, b, 1, 2, 3)), Median::compress(rev(b), rev(a), 2, 1, 3));
}
