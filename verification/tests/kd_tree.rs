use dungeon_explorer::kd_tree::KDTree;
use dungeon_explorer::rect::{Point, Rect};

fn rect(ax: i32, ay: i32, bx: i32, by: i32) -> Rect {
    Rect {
        min: Point { x: ax, y: ay },
        max: Point { x: bx, y: by },
    }
}

#[test]
fn tree_overlap() {
    let r1 = rect(0, 0, 10, 10);
    let r2 = rect(10, 10, 20, 20);
    let r3 = rect(20, 20, 30, 30);
    let mut tree = KDTree::default();
    tree.add_rect(r1);
    tree.add_rect(r2);
    tree.add_rect(r3);
    let r1 = rect(5, 5, 10, 10);
    let r2 = rect(30, 30, 40, 40);
    let r3 = rect(25, 25, 40, 40);
    assert!(tree.overlaps(&r1));
    assert!(!tree.overlaps(&r2));
    assert!(tree.overlaps(&r3));
}

#[test]
fn empty_tree_overlaps_nothing() {
    let tree = KDTree::default();
    assert!(!tree.overlaps(&rect(-100, -100, 100, 100)));
}

#[test]
fn tree_matches_linear_scan() {
    // A grid of touching (hence pairwise non-overlapping) cells, inserted in
    // an order that exercises all four discriminating axes.
    let mut cells = Vec::new();
    for i in 0..6 {
        for j in 0..6 {
            cells.push(rect(i * 10, j * 10, i * 10 + 10, j * 10 + 10));
        }
    }
    cells.reverse();
    let mut tree = KDTree::default();
    for c in &cells {
        tree.add_rect(*c);
    }
    let mut queries = Vec::new();
    for x in [-15, -1, 0, 5, 10, 29, 42, 59, 60, 75] {
        for y in [-12, 0, 7, 31, 60, 80] {
            queries.push(rect(x, y, x + 8, y + 13));
            queries.push(rect(x, y, x + 1, y + 40));
        }
    }
    for q in &queries {
        let brute = cells.iter().any(|c| c.overlaps(q));
        assert_eq!(tree.overlaps(q), brute);
    }
}
