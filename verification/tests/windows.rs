use windowless::HandleError;
use windowless::InsertError;
use windowless::Rectangle;
use windowless::WindowTable;

#[test]
fn insert() {
    let mut window_table = WindowTable::new();

    // Inserting a single rectangle should install it as the root.
    let rect1 = window_table.insert(Rectangle::new(0, 0, 100, 100)).unwrap();
    assert_eq!(Some(rect1), window_table.root());

    assert!(window_table.children_of(rect1).unwrap().is_empty());
    assert!(window_table.parents_of(rect1).unwrap().is_empty());
}

#[test]
fn insert_outside_root_fails() {
    let mut table = WindowTable::new();
    let root = table.insert(Rectangle::new(0, 0, 100, 100)).unwrap();

    // A disjoint rectangle is rejected and the table is unchanged.
    let err = table.insert(Rectangle::new(200, 200, 300, 300)).unwrap_err();
    assert!(matches!(err, InsertError::OutsideRoot));
    assert_eq!(table.iter().len(), 1);
    assert_eq!(table.root(), Some(root));
    assert!(table.children_of(root).unwrap().is_empty());

    // Merely touching the root's edge is not overlapping.
    let err = table.insert(Rectangle::new(100, 0, 200, 100)).unwrap_err();
    assert!(matches!(err, InsertError::OutsideRoot));
    assert_eq!(table.iter().len(), 1);
}

#[test]
fn insert_overlapping_wires_edges() {
    let mut table = WindowTable::new();
    let root = table.insert(Rectangle::new(0, 0, 100, 100)).unwrap();

    let new = table.insert(Rectangle::new(50, 50, 150, 150)).unwrap();

    // The root gains the new handle as a child; the new window records
    // the root as its sole parent.
    assert_eq!(table.children_of(root).unwrap(), vec![new]);
    assert_eq!(table.parents_of(new).unwrap(), vec![root]);
    assert!(table.children_of(new).unwrap().is_empty());
    assert_eq!(table.iter().len(), 2);
}

#[test]
fn nesting_prefers_deepest_match() {
    let mut table = WindowTable::new();
    let root = table.insert(Rectangle::new(0, 0, 100, 100)).unwrap();

    // A lies inside the root and becomes its child.
    let a = table.insert(Rectangle::new(0, 0, 50, 50)).unwrap();
    assert_eq!(table.children_of(root).unwrap(), vec![a]);
    assert_eq!(table.parents_of(a).unwrap(), vec![root]);

    // B lies wholly inside A: A's overlap with B is fully covered by A,
    // so B becomes A's child only, not the root's direct child.
    let b = table.insert(Rectangle::new(0, 0, 25, 25)).unwrap();
    assert_eq!(table.parents_of(b).unwrap(), vec![a]);
    assert_eq!(table.children_of(a).unwrap(), vec![b]);
    assert_eq!(table.children_of(root).unwrap(), vec![a]);
}

#[test]
fn partially_covered_window_is_still_reported() {
    let mut table = WindowTable::new();
    let root = table.insert(Rectangle::new(0, 0, 100, 100)).unwrap();
    let a = table.insert(Rectangle::new(0, 0, 50, 50)).unwrap();

    // C overlaps A and also part of the root that A does not cover, so
    // it is wired to both.
    let c = table.insert(Rectangle::new(25, 25, 75, 75)).unwrap();
    let parents = table.parents_of(c).unwrap();
    assert_eq!(parents, vec![root, a]);
    assert_eq!(table.children_of(root).unwrap(), vec![a, c]);
    assert_eq!(table.children_of(a).unwrap(), vec![c]);
}

#[test]
fn clear_empties_the_table() {
    let mut table = WindowTable::new();
    let root = table.insert(Rectangle::new(0, 0, 100, 100)).unwrap();
    table.insert(Rectangle::new(10, 10, 20, 20)).unwrap();
    assert_eq!(table.iter().len(), 2);

    table.clear();
    assert_eq!(table.root(), None);
    assert_eq!(table.iter().len(), 0);

    // A handle issued before the clearing is rejected afterward, even
    // once new windows reuse its slot.
    assert_eq!(table.rect_of(root), Err(HandleError::InvalidHandle));
    let new_root = table.insert(Rectangle::new(0, 0, 5, 5)).unwrap();
    assert_eq!(table.rect_of(root), Err(HandleError::InvalidHandle));
    assert!(matches!(
        table.parents_of(root),
        Err(HandleError::InvalidHandle)
    ));
    assert_eq!(table.root(), Some(new_root));
}

#[test]
fn iterate_length_tracks_successful_inserts() {
    let mut table = WindowTable::new();
    assert_eq!(table.iter().len(), 0);

    table.insert(Rectangle::new(0, 0, 100, 100)).unwrap();
    assert_eq!(table.iter().len(), 1);

    table.insert(Rectangle::new(10, 10, 20, 20)).unwrap();
    assert_eq!(table.iter().len(), 2);

    // A failed insertion retains no record.
    assert!(table.insert(Rectangle::new(500, 500, 600, 600)).is_err());
    assert_eq!(table.iter().len(), 2);

    table.insert(Rectangle::new(20, 20, 40, 40)).unwrap();
    assert_eq!(table.iter().len(), 3);

    table.clear();
    assert_eq!(table.iter().len(), 0);

    table.insert(Rectangle::new(0, 0, 10, 10)).unwrap();
    assert_eq!(table.iter().len(), 1);
}

#[test]
fn iterate_yields_handles_and_rectangles() {
    let mut table = WindowTable::new();
    let r0 = Rectangle::new(0, 0, 100, 100);
    let r1 = Rectangle::new(5, 5, 30, 30);
    let k0 = table.insert(r0).unwrap();
    let k1 = table.insert(r1).unwrap();

    let all = table.iter();
    assert_eq!(all.len(), 2);
    assert_eq!(all[0], (k0, r0));
    assert_eq!(all[1], (k1, r1));

    // Callable repeatedly.
    let again = table.iter();
    assert_eq!(again.len(), 2);
}
