use windowless::Rectangle;

#[test]
fn no_intersect() {
    let a = Rectangle::new(0, 0, 10, 10);
    let b = Rectangle::new(15, 15, 25, 25);

    assert!(a.intersection(b).is_none());
}

#[test]
fn intersect_inside() {
    let a = Rectangle::new(5, 5, 10, 10);
    let b = Rectangle::new(0, 0, 15, 15);

    let (intersection, remainder) = a.intersection(b).unwrap();
    assert_eq!(intersection, a);
    assert!(remainder.is_empty());
}

#[test]
fn intersect_corner() {
    let a = Rectangle::new(0, 0, 10, 10);
    let b = Rectangle::new(5, 5, 15, 15);

    let (intersection, remainder) = a.intersection(b).unwrap();

    assert_eq!(intersection, Rectangle::new(5, 5, 10, 10));
    assert_eq!(remainder.len(), 2);
}

#[test]
fn intersect_corner_pieces() {
    let a = Rectangle::new(0, 0, 10, 10);
    let b = Rectangle::new(5, 5, 15, 15);

    let (intersection, remainder) = a.intersection(b).unwrap();

    assert_eq!(intersection, Rectangle::new(5, 5, 10, 10));
    assert_eq!(remainder.len(), 2);
    // Clipping order: the slice above `b` first, then the slice to the
    // left of `b`, already clipped vertically.
    assert_eq!(remainder[0], Rectangle::new(0, 0, 10, 5));
    assert_eq!(remainder[1], Rectangle::new(0, 5, 5, 10));
}

#[test]
fn overlap_test_is_symmetric() {
    let pairs = [
        (Rectangle::new(0, 0, 10, 10), Rectangle::new(5, 5, 15, 15)),
        (Rectangle::new(0, 0, 10, 10), Rectangle::new(20, 20, 30, 30)),
        (Rectangle::new(0, 0, 10, 10), Rectangle::new(10, 0, 20, 10)),
        (Rectangle::new(3, 4, 8, 9), Rectangle::new(1, 1, 20, 2)),
    ];
    for (a, b) in pairs {
        assert_eq!(a.intersects(b), b.intersects(a));
    }
}

#[test]
fn edge_touching_does_not_overlap() {
    let a = Rectangle::new(0, 0, 10, 10);
    let right_neighbour = Rectangle::new(10, 0, 20, 10);
    let below_neighbour = Rectangle::new(0, 10, 10, 20);
    let corner_neighbour = Rectangle::new(10, 10, 20, 20);

    assert!(!a.intersects(right_neighbour));
    assert!(!a.intersects(below_neighbour));
    assert!(!a.intersects(corner_neighbour));
    assert!(a.intersection(right_neighbour).is_none());
    assert!(a.intersection(below_neighbour).is_none());
    assert!(a.intersection(corner_neighbour).is_none());
}

#[test]
fn split_tiles_the_original() {
    // The overlap region and the remainder pieces exactly tile the
    // original rectangle: every point of `a` is covered exactly once.
    let a = Rectangle::new(0, 0, 10, 10);
    let b = Rectangle::new(5, 5, 15, 15);

    let (intersection, remainder) = a.intersection(b).unwrap();

    for x in 0..10 {
        for y in 0..10 {
            let mut covered = 0;
            let pt_in = |r: Rectangle| r.left <= x && x < r.right && r.top <= y && y < r.bottom;
            if pt_in(intersection) {
                covered += 1;
            }
            for piece in remainder.iter() {
                if pt_in(*piece) {
                    covered += 1;
                }
            }
            assert_eq!(covered, 1);
        }
    }
}

#[test]
fn extreme_coordinates() {
    let whole = Rectangle::new(i32::MIN, i32::MIN, i32::MAX, i32::MAX);
    let small = Rectangle::new(-5, -5, 5, 5);
    assert!(whole.intersects(small));
    assert!(small.intersects(whole));

    let (intersection, remainder) = small.intersection(whole).unwrap();
    assert_eq!(intersection, small);
    assert!(remainder.is_empty());

    // The widest rectangle whose width still fits.
    let wide = Rectangle::new(-1, 0, i32::MAX - 1, 1);
    assert_eq!(wide.width(), i32::MAX);
    assert_eq!(wide.height(), 1);
}

#[test]
fn width_height_area() {
    let r = Rectangle::new(2, 3, 12, 8);
    assert_eq!(r.width(), 10);
    assert_eq!(r.height(), 5);
    assert_eq!(r.area(), 50);

    // Defensive against reversed bounds.
    let reversed = Rectangle::new(12, 8, 2, 3);
    assert_eq!(reversed.width(), 10);
    assert_eq!(reversed.height(), 5);
    assert_eq!(reversed.area(), 50);
}
