use dungeon_explorer::rect::{InvalidRect, Point, Rect};

fn rect(ax: i32, ay: i32, bx: i32, by: i32) -> Rect {
    Rect {
        min: Point { x: ax, y: ay },
        max: Point { x: bx, y: by },
    }
}

#[test]
fn rect_overlap() {
    let r1 = rect(0, 0, 10, 10);
    let r2 = rect(10, 10, 20, 20);
    assert!(!r1.overlaps(&r2));
    assert!(!r2.overlaps(&r1));
    let r1 = rect(0, 0, 10, 10);
    let r2 = rect(5, 5, 10, 10);
    assert!(r1.overlaps(&r2));
    assert!(r2.overlaps(&r1));
}

#[test]
fn touching_rectangles_do_not_overlap() {
    // Sharing only an edge or a corner is not an overlap.
    let a = rect(0, 0, 10, 10);
    let edge = rect(10, 0, 20, 10);
    let corner = rect(10, 10, 20, 20);
    assert!(!a.overlaps(&edge));
    assert!(!edge.overlaps(&a));
    assert!(!a.overlaps(&corner));
    assert!(!corner.overlaps(&a));
}

#[test]
fn overlap_is_symmetric_on_samples() {
    let samples = vec![
        rect(0, 0, 10, 10),
        rect(5, 5, 10, 10),
        rect(10, 10, 20, 20),
        rect(-3, -7, 2, 1),
        rect(1, 1, 1, 1),
        rect(-20, 4, 40, 5),
    ];
    for a in &samples {
        for b in &samples {
            assert_eq!(a.overlaps(b), b.overlaps(a));
        }
    }
}

#[test]
fn rect_new_accepts_ordered_corners() {
    let r = Rect::new(Point { x: 1, y: 2 }, Point { x: 3, y: 4 }).unwrap();
    assert_eq!(r.min, Point { x: 1, y: 2 });
    assert_eq!(r.max, Point { x: 3, y: 4 });
}

#[test]
fn rect_new_rejects_degenerate() {
    assert_eq!(
        Rect::new(Point { x: 5, y: 0 }, Point { x: 4, y: 10 }),
        Err(InvalidRect)
    );
    assert_eq!(
        Rect::new(Point { x: 0, y: 5 }, Point { x: 10, y: 4 }),
        Err(InvalidRect)
    );
}
