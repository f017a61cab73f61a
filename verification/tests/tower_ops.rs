use hanoi::tower::{Disc, MoveOutcome, Tower};

#[test]
fn empty_tower_has_no_discs() {
    let t = Tower::empty("A");
    assert_eq!(t.count(), 0);
    assert!(t.is_valid());
    assert!(matches!(t.peek(), Disc::Empty));
}

#[test]
fn full_tower_layout() {
    let t = Tower::full("A", 4);
    assert_eq!(t.count(), 4);
    assert!(t.is_valid());
    assert!(matches!(t.peek(), Disc::Occupied { index: 0 }));
    assert_eq!(t.discs(), vec![3, 2, 1, 0]);
}

#[test]
fn full_tower_of_zero_is_empty() {
    let t = Tower::full("A", 0);
    assert_eq!(t.count(), 0);
    assert!(matches!(t.peek(), Disc::Empty));
}

#[test]
fn pop_returns_top_and_shrinks() {
    let mut t = Tower::full("A", 2);
    let d = t.pop();
    assert!(matches!(d, Some(Disc::Occupied { index: 0 })));
    assert_eq!(t.count(), 1);
    assert!(matches!(t.peek(), Disc::Occupied { index: 1 }));
    let d2 = t.pop();
    assert!(matches!(d2, Some(Disc::Occupied { index: 1 })));
    assert!(t.pop().is_none());
}

#[test]
fn push_empty_marker_is_no_op() {
    let mut t = Tower::full("A", 2);
    t.push(Disc::Empty);
    assert_eq!(t.count(), 2);
    assert!(matches!(t.peek(), Disc::Occupied { index: 0 }));
}

#[test]
fn push_does_not_check_legality() {
    let mut t = Tower::full("A", 2);
    t.push(Disc::Occupied { index: 7 });
    assert_eq!(t.count(), 3);
    assert!(!t.is_valid());
}

#[test]
fn can_move_is_false_from_empty_source() {
    let a = Tower::empty("A");
    let b = Tower::full("B", 1);
    assert!(!a.can_move(&b));
    let c = Tower::empty("C");
    assert!(!a.can_move(&c));
}

#[test]
fn can_move_is_true_onto_empty_destination() {
    let a = Tower::full("A", 1);
    let b = Tower::empty("B");
    assert!(a.can_move(&b));
}

#[test]
fn can_move_compares_top_discs() {
    let mut a = Tower::empty("A");
    let mut b = Tower::empty("B");
    a.push(Disc::Occupied { index: 1 });
    b.push(Disc::Occupied { index: 3 });
    assert!(a.can_move(&b));
    assert!(!b.can_move(&a));
}

#[test]
fn move_to_transfers_the_top_disc() {
    let mut a = Tower::full("A", 2);
    let mut b = Tower::empty("B");
    let r = a.move_to(&mut b);
    assert_eq!(r, MoveOutcome::Moved);
    assert_eq!(a.discs(), vec![1]);
    assert_eq!(b.discs(), vec![0]);
    assert!(a.is_valid() && b.is_valid());
}

#[test]
fn illegal_move_is_rejected_without_change() {
    let mut a = Tower::full("A", 2);
    let mut b = Tower::empty("B");
    let moved = a.move_to(&mut b);
    assert_eq!(moved, MoveOutcome::Moved);
    // Now a's top is disc 1, b's top is disc 0: moving 1 onto 0 is illegal.
    let rejected = a.move_to(&mut b);
    assert_eq!(rejected, MoveOutcome::Rejected);
    assert_eq!(a.discs(), vec![1]);
    assert_eq!(b.discs(), vec![0]);
    // An empty source is rejected as well.
    let mut e = Tower::empty("E");
    let r2 = e.move_to(&mut b);
    assert_eq!(r2, MoveOutcome::Rejected);
    assert_eq!(b.discs(), vec![0]);
}
